//! Which files of a project go into a snapshot, and in which order.
//!
//! The file tree is read elsewhere. What is decided here, from a listing of
//! it, is which entries are wanted and how they are ordered.

use vstd::prelude::*;
use vstd::string::*;
use crate::order::{
    lemma_path_order_is_strict, lemma_path_order_is_transitive, path_before, same_name, Rank,
};
use crate::path::FilePath;

verus! {

/// What an entry of the file tree is.
#[derive(Clone, Copy, Debug, PartialEq, Eq, Structural)]
pub enum EntryKind {
    /// A regular file.
    File,
    /// A directory.
    Dir,
    /// Anything else.
    Other,
}

/// One entry of the file tree: its path below the root, and what it is.
#[derive(Debug)]
pub struct TreeEntry {
    pub path: FilePath,
    pub kind: EntryKind,
}

/// Mathematical value of a [`TreeEntry`].
pub struct TreeEntryView {
    pub path: Seq<Seq<char>>,
    pub kind: EntryKind,
}

impl View for TreeEntry {
    type V = TreeEntryView;

    open spec fn view(&self) -> TreeEntryView {
        TreeEntryView { path: self.path@, kind: self.kind }
    }
}

/// The values of a listing.
pub open spec fn entry_views(entries: Seq<TreeEntry>) -> Seq<TreeEntryView> {
    Seq::new(entries.len(), |i: int| entries[i]@)
}

/// The values of a list of paths.
pub open spec fn path_views(paths: Seq<FilePath>) -> Seq<Seq<Seq<char>>> {
    Seq::new(paths.len(), |i: int| paths[i]@)
}

/// The name ends in a dot and `ext`, and something stands before the dot.
/// For an `ext` without a dot, this is when `ext` is the name's extension.
pub open spec fn has_extension(name: Seq<char>, ext: Seq<char>) -> bool {
    let dot = name.len() - ext.len() - 1;
    &&& dot > 0
    &&& name[dot] == '.'
    &&& name.subrange(dot + 1, name.len() as int) == ext
}

/// The policy. Wanted are: below `src`, the regular files with the
/// extension `rs`; below `tests` and `migrations`, everything that is not a
/// directory; and directly in the root, `askama.toml` and `Cargo.toml`.
pub open spec fn included(entry: TreeEntryView) -> bool {
    let path = entry.path;
    ||| {
        &&& path.len() >= 2
        &&& path[0] == "src"@
        &&& entry.kind == EntryKind::File
        &&& has_extension(path.last(), "rs"@)
    }
    ||| {
        &&& path.len() >= 2
        &&& (path[0] == "tests"@ || path[0] == "migrations"@)
        &&& entry.kind != EntryKind::Dir
    }
    ||| {
        &&& path.len() == 1
        &&& (path[0] == "askama.toml"@ || path[0] == "Cargo.toml"@)
    }
}

/// The directories directly below the root in which wanted entries lie.
pub open spec fn listed_directory_names() -> Seq<Seq<char>> {
    seq!["src"@, "tests"@, "migrations"@]
}

/// The names of the wanted entries that lie directly in the root.
pub open spec fn root_file_names() -> Seq<Seq<char>> {
    seq!["askama.toml"@, "Cargo.toml"@]
}

/// Each path comes before all that follow it, so none occurs twice.
pub open spec fn strictly_ascending(paths: Seq<Seq<Seq<char>>>) -> bool {
    forall|i: int, j: int|
        0 <= i < j < paths.len() ==> path_before(#[trigger] paths[i], #[trigger] paths[j])
}

/// `path` is the path, from `root` on, of a wanted entry of the listing.
pub open spec fn wanted(
    root: Seq<Seq<char>>,
    entries: Seq<TreeEntryView>,
    path: Seq<Seq<char>>,
) -> bool {
    exists|i: int|
        0 <= i < entries.len() && included(#[trigger] entries[i]) && path == root
            + entries[i].path
}

/// `paths` is the file list of the listing: the paths of its wanted entries,
/// each once, in ascending order.
pub open spec fn collected(
    root: Seq<Seq<char>>,
    entries: Seq<TreeEntryView>,
    paths: Seq<Seq<Seq<char>>>,
) -> bool {
    &&& strictly_ascending(paths)
    &&& forall|p: Seq<Seq<char>>| #[trigger] paths.contains(p) <==> wanted(root, entries, p)
}

/// Whether the name ends in a dot and `ext`, with something before the dot.
pub fn name_has_extension(name: &str, ext: &str) -> (has: bool)
    ensures
        has == has_extension(name@, ext@),
{
    let name_len = name.unicode_len();
    let ext_len = ext.unicode_len();
    if name_len < 2 || ext_len > name_len - 2 {
        return false;
    }
    let dot = name_len - ext_len - 1;
    if name.get_char(dot) != '.' {
        return false;
    }
    let mut j: usize = 0;
    while j < ext_len
        invariant
            j <= ext_len,
            ext_len == ext@.len(),
            name_len == name@.len(),
            dot == name_len - ext_len - 1,
            dot > 0,
            forall|k: int| 0 <= k < j ==> name@[dot + 1 + k] == ext@[k],
        decreases ext_len - j,
    {
        if name.get_char(dot + 1 + j) != ext.get_char(j) {
            assert(name@.subrange(dot + 1, name@.len() as int)[j as int] != ext@[j as int]);
            return false;
        }
        j = j + 1;
    }
    assert(name@.subrange(dot + 1, name@.len() as int) =~= ext@);
    true
}

/// The names of the given strings.
pub open spec fn name_views(names: Seq<String>) -> Seq<Seq<char>> {
    Seq::new(names.len(), |i: int| names[i]@)
}

/// The directories directly below the root that have to be listed, with
/// all that lies in them.
pub fn listed_directories() -> (names: Vec<String>)
    ensures
        name_views(names@) == listed_directory_names(),
{
    let mut names: Vec<String> = Vec::new();
    names.push(String::from_str("src"));
    names.push(String::from_str("tests"));
    names.push(String::from_str("migrations"));
    assert(name_views(names@) =~= listed_directory_names());
    names
}

/// The names to look for directly in the root.
pub fn root_files() -> (names: Vec<String>)
    ensures
        name_views(names@) == root_file_names(),
{
    let mut names: Vec<String> = Vec::new();
    names.push(String::from_str("askama.toml"));
    names.push(String::from_str("Cargo.toml"));
    assert(name_views(names@) =~= root_file_names());
    names
}

/// A listing of the listed directories and of the named root files misses
/// nothing: every wanted entry lies in one of those directories, or is one
/// of those files.
pub proof fn lemma_wanted_entries_are_listed(entry: TreeEntryView)
    requires
        included(entry),
    ensures
        entry.path.len() >= 2 ==> listed_directory_names().contains(entry.path[0]),
        entry.path.len() < 2 ==> entry.path.len() == 1 && root_file_names().contains(entry.path[0]),
{
    let dirs = listed_directory_names();
    let files = root_file_names();
    assert(dirs[0] == "src"@ && dirs[1] == "tests"@ && dirs[2] == "migrations"@);
    assert(files[0] == "askama.toml"@ && files[1] == "Cargo.toml"@);
}

/// Whether the policy wants the entry.
pub fn is_included(entry: &TreeEntry) -> (yes: bool)
    ensures
        yes == included(entry@),
{
    let n = entry.path.components.len();
    if n == 0 {
        return false;
    }
    let first = entry.path.components[0].as_str();
    assert(first@ == entry@.path[0]);
    if n == 1 {
        return same_name(first, "askama.toml") || same_name(first, "Cargo.toml");
    }
    let last = entry.path.components[n - 1].as_str();
    assert(last@ == entry@.path.last());
    if same_name(first, "src") {
        proof {
            reveal_strlit("src");
            reveal_strlit("tests");
            reveal_strlit("migrations");
            assert("src"@ != "tests"@);
            assert("src"@ != "migrations"@);
        }
        entry.kind == EntryKind::File && name_has_extension(last, "rs")
    } else if same_name(first, "tests") || same_name(first, "migrations") {
        entry.kind != EntryKind::Dir
    } else {
        false
    }
}

fn insert_ascending(list: &mut Vec<FilePath>, path: FilePath)
    requires
        strictly_ascending(path_views(old(list)@)),
    ensures
        strictly_ascending(path_views(final(list)@)),
        forall|p: Seq<Seq<char>>| #[trigger]
            path_views(final(list)@).contains(p) <==> path_views(old(list)@).contains(p) || p == path@,
{
    let ghost before = path_views(list@);
    let mut lo: usize = 0;
    let mut hi: usize = list.len();
    while lo < hi
        invariant
            lo <= hi <= list@.len(),
            before == path_views(list@),
            strictly_ascending(before),
            forall|j: int| 0 <= j < lo ==> path_before(#[trigger] before[j], path@),
            forall|j: int| hi <= j < before.len() ==> path_before(path@, #[trigger] before[j]),
        decreases hi - lo,
    {
        let mid = lo + (hi - lo) / 2;
        match list[mid].rank(&path) {
            Rank::Before => {
                assert forall|j: int| 0 <= j < mid + 1 implies path_before(
                    #[trigger] before[j],
                    path@,
                ) by {
                    if j < mid {
                        lemma_path_order_is_transitive(before[j], before[mid as int], path@);
                    }
                }
                lo = mid + 1;
            },
            Rank::After => {
                assert forall|j: int| mid <= j < before.len() implies path_before(
                    path@,
                    #[trigger] before[j],
                ) by {
                    if mid < j {
                        lemma_path_order_is_transitive(path@, before[mid as int], before[j]);
                    }
                }
                hi = mid;
            },
            Rank::Same => {
                assert(before[mid as int] == path@);
                return ;
            },
        }
    }
    let ghost wanted_view = path@;
    list.insert(lo, path);
    proof {
        let after = path_views(list@);
        assert(after =~= before.insert(lo as int, wanted_view));
        assert forall|i: int, j: int| 0 <= i < j < after.len() implies path_before(
            #[trigger] after[i],
            #[trigger] after[j],
        ) by {
            if j < lo {
                assert(after[i] == before[i] && after[j] == before[j]);
            } else if j == lo {
                assert(after[i] == before[i]);
            } else if i < lo {
                assert(after[i] == before[i] && after[j] == before[j - 1]);
            } else if i == lo {
                assert(after[j] == before[j - 1]);
            } else {
                assert(after[i] == before[i - 1] && after[j] == before[j - 1]);
            }
        }
        assert forall|p: Seq<Seq<char>>| #[trigger]
            after.contains(p) <==> before.contains(p) || p == wanted_view by {
            if after.contains(p) {
                let i = choose|i: int| 0 <= i < after.len() && after[i] == p;
                if i < lo {
                    assert(before[i] == p);
                } else if i > lo {
                    assert(before[i - 1] == p);
                }
            }
            if before.contains(p) {
                let i = choose|i: int| 0 <= i < before.len() && before[i] == p;
                if i < lo {
                    assert(after[i] == p);
                } else {
                    assert(after[i + 1] == p);
                }
            }
            if p == wanted_view {
                assert(after[lo as int] == p);
            }
        }
    }
}

/// The file list of a snapshot: the paths, from `root` on, of the entries
/// that the policy wants, each once, in ascending order. The order and the
/// repetitions of the listing do not matter.
pub fn collect_files(root: &FilePath, entries: &Vec<TreeEntry>) -> (files: Vec<FilePath>)
    ensures
        collected(root@, entry_views(entries@), path_views(files@)),
{
    let mut files: Vec<FilePath> = Vec::new();
    let ghost listing = entry_views(entries@);
    let mut i: usize = 0;
    while i < entries.len()
        invariant
            i <= entries@.len(),
            listing == entry_views(entries@),
            collected(root@, listing.subrange(0, i as int), path_views(files@)),
        decreases entries@.len() - i,
    {
        let ghost before = path_views(files@);
        let ghost seen = listing.subrange(0, i as int);
        let ghost next = listing.subrange(0, i + 1);
        let entry = &entries[i];
        assert(entry@ == listing[i as int]);
        let take = is_included(entry);
        if take {
            let path = root.join(&entry.path);
            insert_ascending(&mut files, path);
        }
        proof {
            let after = path_views(files@);
            assert forall|p: Seq<Seq<char>>| #[trigger] after.contains(p) <==> wanted(root@, next, p) by {
                assert(before.contains(p) <==> wanted(root@, seen, p));
                if wanted(root@, seen, p) {
                    let k = choose|k: int|
                        0 <= k < seen.len() && included(#[trigger] seen[k]) && p == root@ + seen[k].path;
                    assert(next[k] == seen[k]);
                }
                if take && p == root@ + listing[i as int].path {
                    assert(next[i as int] == listing[i as int]);
                }
                if wanted(root@, next, p) {
                    let k = choose|k: int|
                        0 <= k < next.len() && included(#[trigger] next[k]) && p == root@ + next[k].path;
                    if k < i {
                        assert(seen[k] == next[k]);
                    }
                }
            }
        }
        i = i + 1;
    }
    assert(listing.subrange(0, i as int) =~= listing);
    files
}

/// Two ascending lists of the same paths are the same list.
pub proof fn lemma_ascending_list_is_unique(a: Seq<Seq<Seq<char>>>, b: Seq<Seq<Seq<char>>>)
    requires
        strictly_ascending(a),
        strictly_ascending(b),
        forall|p: Seq<Seq<char>>| a.contains(p) <==> b.contains(p),
    ensures
        a == b,
    decreases a.len(),
{
    if a.len() == 0 {
        if b.len() > 0 {
            assert(b.contains(b[0]));
        }
        assert(a =~= b);
    } else {
        assert(a.contains(a[0]));
        let j = choose|j: int| 0 <= j < b.len() && b[j] == a[0];
        assert(b.contains(b[0]));
        let i = choose|i: int| 0 <= i < a.len() && a[i] == b[0];
        lemma_path_order_is_strict(a[0], b[0]);
        lemma_path_order_is_strict(b[0], a[0]);
        assert(a[0] == b[0]);
        let ta = a.drop_first();
        let tb = b.drop_first();
        assert forall|p: Seq<Seq<char>>| ta.contains(p) <==> tb.contains(p) by {
            if ta.contains(p) {
                let k = choose|k: int| 0 <= k < ta.len() && ta[k] == p;
                assert(a[k + 1] == p);
                assert(a.contains(p));
                lemma_path_order_is_strict(a[0], p);
                let m = choose|m: int| 0 <= m < b.len() && b[m] == p;
                assert(tb[m - 1] == p);
            }
            if tb.contains(p) {
                let k = choose|k: int| 0 <= k < tb.len() && tb[k] == p;
                assert(b[k + 1] == p);
                assert(b.contains(p));
                lemma_path_order_is_strict(b[0], p);
                let m = choose|m: int| 0 <= m < a.len() && a[m] == p;
                assert(ta[m - 1] == p);
            }
        }
        assert forall|x: int, y: int| 0 <= x < y < ta.len() implies path_before(
            #[trigger] ta[x],
            #[trigger] ta[y],
        ) by {
            assert(ta[x] == a[x + 1] && ta[y] == a[y + 1]);
        }
        assert forall|x: int, y: int| 0 <= x < y < tb.len() implies path_before(
            #[trigger] tb[x],
            #[trigger] tb[y],
        ) by {
            assert(tb[x] == b[x + 1] && tb[y] == b[y + 1]);
        }
        lemma_ascending_list_is_unique(ta, tb);
        assert(a =~= seq![a[0]] + ta);
        assert(b =~= seq![b[0]] + tb);
    }
}

/// The file list depends on what the listing holds, not on how it is
/// ordered: two listings with the same entries have the same file list.
pub proof fn lemma_listing_order_is_irrelevant(
    root: Seq<Seq<char>>,
    first: Seq<TreeEntryView>,
    second: Seq<TreeEntryView>,
    a: Seq<Seq<Seq<char>>>,
    b: Seq<Seq<Seq<char>>>,
)
    requires
        forall|e: TreeEntryView| first.contains(e) <==> second.contains(e),
        collected(root, first, a),
        collected(root, second, b),
    ensures
        a == b,
{
    assert forall|p: Seq<Seq<char>>| a.contains(p) <==> b.contains(p) by {
        if wanted(root, first, p) {
            let i = choose|i: int|
                0 <= i < first.len() && included(#[trigger] first[i]) && p == root + first[i].path;
            assert(first.contains(first[i]));
            let j = choose|j: int| 0 <= j < second.len() && second[j] == first[i];
            assert(included(second[j]));
        }
        if wanted(root, second, p) {
            let i = choose|i: int|
                0 <= i < second.len() && included(#[trigger] second[i]) && p == root + second[i].path;
            assert(second.contains(second[i]));
            let j = choose|j: int| 0 <= j < first.len() && first[j] == second[i];
            assert(included(first[j]));
        }
    }
    lemma_ascending_list_is_unique(a, b);
}

} // verus!
