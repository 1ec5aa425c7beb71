//! Counting lines, and paths relative to a directory.

use vstd::prelude::*;
use vstd::string::*;
use crate::lines::{count_newlines_in, lemma_encoding_keeps_line_feeds, line_feeds, newline_count};
use crate::path::{is_under, FilePath};

verus! {

/// Counts the line terminators in a string: the characters `\n`, which are
/// the bytes of value 10 in its UTF-8 encoding.
pub fn count_newlines(s: &str) -> (n: usize)
    ensures
        n == line_feeds(s@),
        n == newline_count(s.spec_bytes()),
{
    proof {
        lemma_encoding_keeps_line_feeds(s@);
    }
    count_newlines_in(s.as_bytes())
}

/// `file` as seen from `base`: where `base` is `file` or a directory above
/// it, a dot and what follows `base` in `file`; else `file` itself.
pub open spec fn relative_to(file: Seq<Seq<char>>, base: Seq<Seq<char>>) -> Seq<Seq<char>> {
    if is_under(file, base) {
        seq!["."@] + file.skip(base.len() as int)
    } else {
        file
    }
}

/// The path of `file` relative to `base`, or `file` itself where it does
/// not lie under `base`.
pub fn path_relative(file: &FilePath, base: &FilePath) -> (relative: FilePath)
    ensures
        relative@ == relative_to(file@, base@),
{
    if !file.starts_with(base) {
        return file.clone();
    }
    let mut relative = FilePath::single(".");
    let start = base.components.len();
    let mut i: usize = start;
    while i < file.components.len()
        invariant
            start <= i <= file.components@.len(),
            start == base@.len(),
            relative@ == seq!["."@] + file@.subrange(start as int, i as int),
        decreases file.components@.len() - i,
    {
        let ghost before = relative@;
        relative.components.push(file.components[i].clone());
        assert(relative@ =~= before.push(file@[i as int]));
        assert(relative@ =~= seq!["."@] + file@.subrange(start as int, i + 1));
        i = i + 1;
    }
    assert(file@.subrange(start as int, i as int) =~= file@.skip(start as int));
    relative
}

} // verus!
