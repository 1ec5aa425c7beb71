//! Text that the snapshot writes besides file contents: decimal numbers,
//! part file names and block headers.

use vstd::prelude::*;
use vstd::string::*;

verus! {

/// The character that stands for the digit `d`.
pub open spec fn digit_char(d: nat) -> char {
    if d == 0 {
        '0'
    } else if d == 1 {
        '1'
    } else if d == 2 {
        '2'
    } else if d == 3 {
        '3'
    } else if d == 4 {
        '4'
    } else if d == 5 {
        '5'
    } else if d == 6 {
        '6'
    } else if d == 7 {
        '7'
    } else if d == 8 {
        '8'
    } else {
        '9'
    }
}

/// Decimal notation of `n`, without sign or leading zeros.
pub open spec fn decimal(n: nat) -> Seq<char>
    decreases n,
{
    if n < 10 {
        seq![digit_char(n)]
    } else {
        decimal(n / 10).push(digit_char(n % 10))
    }
}

/// Name of the file that holds part number `index`.
pub open spec fn part_file_name_text(prefix: Seq<char>, index: nat) -> Seq<char> {
    prefix + "_part"@ + decimal(index) + ".txt"@
}

/// The path of `name` in the directory `dest`. A `name` that starts at the
/// root stands for itself, as does any `name` where `dest` is empty; else
/// `name` follows `dest`, with a `/` between them unless `dest` ends in one.
pub open spec fn joined_text(dest: Seq<char>, name: Seq<char>) -> Seq<char> {
    if (name.len() > 0 && name[0] == '/') || dest.len() == 0 {
        name
    } else if dest.last() == '/' {
        dest + name
    } else {
        dest + seq!['/'] + name
    }
}

/// Path of the file that holds part number `index`, in the directory `dest`.
pub open spec fn part_path_text(dest: Seq<char>, prefix: Seq<char>, index: nat) -> Seq<char> {
    joined_text(dest, part_file_name_text(prefix, index))
}

/// What follows the last `/` of `path`: all of it where it holds none,
/// nothing where it ends in one. For a path that ends in a name, this is
/// that name.
pub open spec fn last_component_text(path: Seq<char>) -> Seq<char>
    decreases path.len(),
{
    if path.len() == 0 || path.last() == '/' {
        Seq::empty()
    } else {
        last_component_text(path.drop_last()).push(path.last())
    }
}

/// Name of the file that holds the summary report.
pub open spec fn summary_file_name_text(prefix: Seq<char>) -> Seq<char> {
    prefix + "_summary.txt"@
}

/// The line that precedes a file's content in a part.
pub open spec fn block_header_text(display_path: Seq<char>) -> Seq<char> {
    "# "@ + display_path + "\n"@
}

/// The two line terminators that follow a file's content in a part.
pub open spec fn block_trailer_text() -> Seq<char> {
    "\n\n"@
}

fn digit_str(d: usize) -> (s: &'static str)
    requires
        d < 10,
    ensures
        s@ == seq![digit_char(d as nat)],
{
    proof {
        reveal_strlit("0");
        reveal_strlit("1");
        reveal_strlit("2");
        reveal_strlit("3");
        reveal_strlit("4");
        reveal_strlit("5");
        reveal_strlit("6");
        reveal_strlit("7");
        reveal_strlit("8");
        reveal_strlit("9");
    }
    let s = if d == 0 {
        "0"
    } else if d == 1 {
        "1"
    } else if d == 2 {
        "2"
    } else if d == 3 {
        "3"
    } else if d == 4 {
        "4"
    } else if d == 5 {
        "5"
    } else if d == 6 {
        "6"
    } else if d == 7 {
        "7"
    } else if d == 8 {
        "8"
    } else {
        "9"
    };
    assert(s@ =~= seq![digit_char(d as nat)]);
    s
}

/// Writes `n` in decimal notation.
pub fn decimal_string(n: usize) -> (s: String)
    ensures
        s@ == decimal(n as nat),
    decreases n,
{
    if n < 10 {
        String::from_str(digit_str(n))
    } else {
        let mut s = decimal_string(n / 10);
        s.append(digit_str(n % 10));
        assert(s@ =~= decimal(n as nat));
        s
    }
}

/// Name of the file that holds part number `index`: the prefix, `_part`,
/// the number and `.txt`.
pub fn part_file_name(prefix: &str, index: usize) -> (name: String)
    ensures
        name@ == part_file_name_text(prefix@, index as nat),
{
    let mut name = String::from_str(prefix);
    name.append("_part");
    let digits = decimal_string(index);
    name.append(digits.as_str());
    name.append(".txt");
    name
}

/// Name of the file that holds the summary report: the prefix and
/// `_summary.txt`.
pub fn summary_file_name(prefix: &str) -> (name: String)
    ensures
        name@ == summary_file_name_text(prefix@),
{
    let mut name = String::from_str(prefix);
    name.append("_summary.txt");
    name
}

/// The header line of a block: `# `, the display path and a line terminator.
pub fn block_header(display_path: &str) -> (header: String)
    ensures
        header@ == block_header_text(display_path@),
{
    let mut header = String::from_str("# ");
    header.append(display_path);
    header.append("\n");
    header
}

/// The path of `name` in the directory `dest`.
pub fn join_text(dest: &str, name: &str) -> (path: String)
    ensures
        path@ == joined_text(dest@, name@),
{
    let dest_len = dest.unicode_len();
    let name_len = name.unicode_len();
    if dest_len == 0 {
        return String::from_str(name);
    }
    if name_len > 0 {
        if name.get_char(0) == '/' {
            return String::from_str(name);
        }
    }
    let mut path = String::from_str(dest);
    if dest.get_char(dest_len - 1) != '/' {
        proof {
            reveal_strlit("/");
            assert("/"@ =~= seq!['/']);
        }
        path.append("/");
    }
    path.append(name);
    path
}

/// Path of the file that holds part number `index`, in the directory `dest`.
pub fn part_path(dest: &str, prefix: &str, index: usize) -> (path: String)
    ensures
        path@ == part_path_text(dest@, prefix@, index as nat),
{
    let name = part_file_name(prefix, index);
    join_text(dest, name.as_str())
}

/// From `start` on, `path` holds no `/`, and `start` is its beginning or
/// follows one: then what follows the last `/` begins at `start`.
proof fn lemma_last_component_from(path: Seq<char>, start: int)
    requires
        0 <= start <= path.len(),
        forall|j: int| start <= j < path.len() ==> path[j] != '/',
        start == 0 || path[start - 1] == '/',
    ensures
        last_component_text(path) == path.subrange(start, path.len() as int),
    decreases path.len(),
{
    if start == path.len() {
        assert(path.subrange(start, path.len() as int) =~= Seq::<char>::empty());
    } else {
        let front = path.drop_last();
        lemma_last_component_from(front, start);
        assert(front.subrange(start, front.len() as int).push(path.last()) =~= path.subrange(
            start,
            path.len() as int,
        ));
    }
}

/// What follows the last `/` of `path`.
pub fn last_component(path: &str) -> (name: String)
    ensures
        name@ == last_component_text(path@),
{
    let len = path.unicode_len();
    let mut start: usize = len;
    loop
        invariant
            start <= len,
            len == path@.len(),
            forall|j: int| start <= j < len ==> path@[j] != '/',
        ensures
            start == 0 || path@[start - 1] == '/',
        decreases start,
    {
        if start == 0 {
            break ;
        }
        if path.get_char(start - 1) == '/' {
            break ;
        }
        start = start - 1;
    }
    proof {
        lemma_last_component_from(path@, start as int);
    }
    String::from_str(path.substring_char(start, len))
}

/// No digit is a `/`, so the decimal notation of a number holds none.
proof fn lemma_decimal_has_no_slash(n: nat)
    ensures
        forall|j: int| 0 <= j < decimal(n).len() ==> decimal(n)[j] != '/',
    decreases n,
{
    if n >= 10 {
        lemma_decimal_has_no_slash(n / 10);
    }
    assert forall|j: int| 0 <= j < decimal(n).len() implies decimal(n)[j] != '/' by {
        if n >= 10 && j < decimal(n / 10).len() {
            assert(decimal(n)[j] == decimal(n / 10)[j]);
        }
    }
}

/// The report shows a part under its bare name: where the prefix holds no
/// `/`, what follows the last `/` of a part's path is the part's file name,
/// whatever the directory.
pub proof fn lemma_part_path_ends_in_its_name(dest: Seq<char>, prefix: Seq<char>, index: nat)
    requires
        forall|j: int| 0 <= j < prefix.len() ==> prefix[j] != '/',
    ensures
        last_component_text(part_path_text(dest, prefix, index)) == part_file_name_text(
            prefix,
            index,
        ),
{
    let name = part_file_name_text(prefix, index);
    let path = part_path_text(dest, prefix, index);
    reveal_strlit("_part");
    reveal_strlit(".txt");
    lemma_decimal_has_no_slash(index);
    assert(name.len() > 0);
    assert forall|j: int| 0 <= j < name.len() implies name[j] != '/' by {
        let a = prefix.len();
        let b = a + "_part"@.len();
        let c = b + decimal(index).len();
        if j < a {
            assert(name[j] == prefix[j]);
        } else if j < b {
            assert(name[j] == "_part"@[j - a]);
        } else if j < c {
            assert(name[j] == decimal(index)[j - b]);
        } else {
            assert(name[j] == ".txt"@[j - c]);
        }
    }
    if dest.len() == 0 {
        lemma_last_component_from(path, 0);
        assert(path.subrange(0, path.len() as int) =~= name);
    } else if dest.last() == '/' {
        lemma_last_component_from(path, dest.len() as int);
        assert(path.subrange(dest.len() as int, path.len() as int) =~= name);
    } else {
        lemma_last_component_from(path, (dest.len() + 1) as int);
        assert(path.subrange((dest.len() + 1) as int, path.len() as int) =~= name);
    }
}

/// The trailer of a block: two line terminators.
pub fn block_trailer() -> (trailer: &'static str)
    ensures
        trailer@ == block_trailer_text(),
{
    "\n\n"
}

} // verus!
