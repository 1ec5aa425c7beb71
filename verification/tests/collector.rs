use snapshotter::collector::{collect_files, is_included, name_has_extension, EntryKind, TreeEntry};
use snapshotter::path::FilePath;
use snapshotter::utils::{count_newlines, path_relative};
use snapshotter::{SnapshotConfig, SnapshotError, Snapshotter};

fn path(parts: &[&str]) -> FilePath {
    FilePath::new(parts.iter().map(|s| s.to_string()).collect())
}

fn entry(parts: &[&str], kind: EntryKind) -> TreeEntry {
    TreeEntry { path: path(parts), kind }
}

fn file(parts: &[&str]) -> TreeEntry {
    entry(parts, EntryKind::File)
}

#[test]
fn basic_snapshot_flow() -> Result<(), SnapshotError> {
    let root = path(&["proj"]);
    let listing = vec![entry(&["src"], EntryKind::Dir), file(&["src", "a.rs"])];
    let content = format!("fn main() {{\nprintln!(\"hello\");\n}}\n");

    let cfg = SnapshotConfig::new("proj", "snap", 10)?.with_dest("out");
    let files = collect_files(&root, &listing);
    assert_eq!(files, vec![path(&["proj", "src", "a.rs"])]);
    let counts: Vec<usize> = files.iter().map(|_| count_newlines(&content)).collect();
    let s = Snapshotter::new(cfg);
    let res = s.run(&counts)?;
    assert!(res.total_files >= 1);
    assert!(res.total_lines > 0);
    assert_eq!(res.total_files, 1);
    assert_eq!(res.total_lines, 6);
    assert_eq!(res.parts.len(), 1);
    assert_eq!(res.parts[0].filename, "out/snap_part1.txt");
    assert_eq!(path_relative(&files[0], &root).display(), "./src/a.rs");
    Ok(())
}

#[test]
fn extension_needs_a_dot_and_a_stem() {
    assert!(name_has_extension("a.rs", "rs"));
    assert!(name_has_extension("main.test.rs", "rs"));
    assert!(name_has_extension("..rs", "rs"));
    assert!(name_has_extension("é.rs", "rs"));
    assert!(!name_has_extension(".rs", "rs"));
    assert!(!name_has_extension("rs", "rs"));
    assert!(!name_has_extension("", "rs"));
    assert!(!name_has_extension("a.rs.bak", "rs"));
    assert!(!name_has_extension("a.RS", "rs"));
    assert!(!name_has_extension("ars", "rs"));
    assert!(!name_has_extension("a.r", "rs"));
    assert!(name_has_extension("Cargo.toml", "toml"));
    assert!(name_has_extension("a.", ""));
    assert!(!name_has_extension(".", ""));
}

#[test]
fn source_tree_gives_only_rust_files() {
    assert!(is_included(&file(&["src", "a.rs"])));
    assert!(is_included(&file(&["src", "bin", "cli.rs"])));
    assert!(!is_included(&file(&["src", "notes.md"])));
    assert!(!is_included(&file(&["src", ".rs"])));
    assert!(!is_included(&entry(&["src", "dir.rs"], EntryKind::Dir)));
    assert!(!is_included(&entry(&["src", "pipe.rs"], EntryKind::Other)));
    assert!(!is_included(&entry(&["src"], EntryKind::Dir)));
    assert!(!is_included(&file(&["src"])));
}

#[test]
fn tests_and_migrations_give_every_file() {
    assert!(is_included(&file(&["tests", "it.rs"])));
    assert!(is_included(&file(&["tests", "data", "input.txt"])));
    assert!(is_included(&entry(&["tests", "socket"], EntryKind::Other)));
    assert!(!is_included(&entry(&["tests", "data"], EntryKind::Dir)));
    assert!(is_included(&file(&["migrations", "001_init.sql"])));
    assert!(!is_included(&entry(&["migrations", "old"], EntryKind::Dir)));
    assert!(!is_included(&entry(&["tests"], EntryKind::Dir)));
    assert!(!is_included(&entry(&["migrations"], EntryKind::Dir)));
}

#[test]
fn root_gives_two_named_files() {
    assert!(is_included(&file(&["Cargo.toml"])));
    assert!(is_included(&file(&["askama.toml"])));
    assert!(is_included(&entry(&["Cargo.toml"], EntryKind::Dir)));
    assert!(!is_included(&file(&["Cargo.lock"])));
    assert!(!is_included(&file(&["README.md"])));
    assert!(!is_included(&file(&["main.rs"])));
    assert!(!is_included(&file(&["sub", "Cargo.toml"])));
    assert!(!is_included(&file(&["target", "debug", "a.rs"])));
    assert!(!is_included(&file(&[])));
}

#[test]
fn collect_files_filters_and_sorts() {
    let root = path(&["."]);
    let listing = vec![
        file(&["tests", "it.rs"]),
        file(&["Cargo.toml"]),
        entry(&["src"], EntryKind::Dir),
        file(&["src", "main.rs"]),
        file(&["src", "lib.rs"]),
        file(&["src", "notes.txt"]),
        entry(&["src", "bin"], EntryKind::Dir),
        file(&["src", "bin", "cli.rs"]),
        file(&["README.md"]),
        file(&["migrations", "001.sql"]),
        file(&["askama.toml"]),
        file(&["target", "x.rs"]),
    ];
    let files = collect_files(&root, &listing);
    assert_eq!(
        files,
        vec![
            path(&[".", "Cargo.toml"]),
            path(&[".", "askama.toml"]),
            path(&[".", "migrations", "001.sql"]),
            path(&[".", "src", "bin", "cli.rs"]),
            path(&[".", "src", "lib.rs"]),
            path(&[".", "src", "main.rs"]),
            path(&[".", "tests", "it.rs"]),
        ]
    );
}

#[test]
fn collect_files_orders_as_std_orders_components() {
    let root = path(&["", "work", "proj"]);
    let names = ["b.rs", "a.rs", "a-b.rs", "Z.rs", "é.rs", "a", "ab.rs", "a0.rs", "_.rs"];
    let mut listing = Vec::new();
    for dir in ["x", "x-y", "w"] {
        for name in names {
            listing.push(file(&["src", dir, name]));
            listing.push(file(&["tests", dir, name]));
        }
    }
    for name in names {
        listing.push(file(&["src", name]));
    }
    let files = collect_files(&root, &listing);
    let mut expected: Vec<FilePath> = listing
        .iter()
        .filter(|e| is_included(e))
        .map(|e| root.join(&e.path))
        .collect();
    expected.sort();
    assert_eq!(files, expected);
    assert!(files.windows(2).all(|w| w[0] < w[1]));
}

#[test]
fn collect_files_does_not_depend_on_the_listing_order() {
    let root = path(&["proj"]);
    let forward = vec![
        file(&["src", "a.rs"]),
        file(&["src", "b.rs"]),
        file(&["tests", "t.rs"]),
        file(&["Cargo.toml"]),
    ];
    let backward = vec![
        file(&["Cargo.toml"]),
        file(&["tests", "t.rs"]),
        file(&["src", "b.rs"]),
        file(&["src", "a.rs"]),
    ];
    assert_eq!(collect_files(&root, &forward), collect_files(&root, &backward));
}

#[test]
fn collect_files_lists_each_path_once() {
    let root = path(&["proj"]);
    let listing = vec![file(&["src", "a.rs"]), file(&["src", "b.rs"]), file(&["src", "a.rs"])];
    assert_eq!(
        collect_files(&root, &listing),
        vec![path(&["proj", "src", "a.rs"]), path(&["proj", "src", "b.rs"])]
    );
}

#[test]
fn collect_files_of_nothing_wanted_is_empty() {
    let root = path(&["proj"]);
    assert!(collect_files(&root, &Vec::new()).is_empty());
    let listing = vec![file(&["README.md"]), entry(&["src"], EntryKind::Dir)];
    assert!(collect_files(&root, &listing).is_empty());
    let snapshotter = Snapshotter::new(SnapshotConfig::new("proj", "snap", 10).unwrap());
    assert!(matches!(snapshotter.run(&Vec::new()), Err(SnapshotError::NoFiles)));
}

#[test]
fn listing_covers_the_policy() {
    assert_eq!(snapshotter::collector::listed_directories(), vec!["src", "tests", "migrations"]);
    assert_eq!(snapshotter::collector::root_files(), vec!["askama.toml", "Cargo.toml"]);
}
