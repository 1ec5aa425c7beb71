use snapshotter::order::{rank_bytes, rank_names, same_name, Rank};
use snapshotter::path::FilePath;

fn path(parts: &[&str]) -> FilePath {
    FilePath::new(parts.iter().map(|s| s.to_string()).collect())
}

#[test]
fn display_puts_slashes_between_components() {
    assert_eq!(path(&[]).display(), "");
    assert_eq!(path(&["a"]).display(), "a");
    assert_eq!(path(&[".", "src", "a.rs"]).display(), "./src/a.rs");
    assert_eq!(path(&["", "home", "proj"]).display(), "/home/proj");
}

#[test]
fn join_appends_components() {
    assert_eq!(path(&["."]).join(&path(&["src", "a.rs"])), path(&[".", "src", "a.rs"]));
    assert_eq!(path(&["a", "b"]).join(&path(&[])), path(&["a", "b"]));
    assert_eq!(path(&[]).join(&path(&["x"])), path(&["x"]));
}

#[test]
fn single_has_one_component() {
    assert_eq!(FilePath::single("src"), path(&["src"]));
}

#[test]
fn clone_is_equal() {
    let p = path(&["a", "b", "c"]);
    assert_eq!(p.clone(), p);
}

#[test]
fn starts_with_compares_whole_components() {
    let file = path(&["a", "bc", "d"]);
    assert!(file.starts_with(&path(&[])));
    assert!(file.starts_with(&path(&["a"])));
    assert!(file.starts_with(&path(&["a", "bc"])));
    assert!(file.starts_with(&file));
    assert!(!file.starts_with(&path(&["a", "b"])));
    assert!(!file.starts_with(&path(&["a", "bc", "d", "e"])));
    assert!(!file.starts_with(&path(&["x"])));
}

#[test]
fn rank_bytes_orders_like_slices() {
    let samples: [&[u8]; 8] = [b"", b"a", b"ab", b"abc", b"b", b"\xff", b"a\x00", b"B"];
    for a in samples {
        for b in samples {
            let expected = if a < b {
                Rank::Before
            } else if a == b {
                Rank::Same
            } else {
                Rank::After
            };
            assert_eq!(rank_bytes(a, b), expected);
        }
    }
}

#[test]
fn rank_names_orders_like_strings() {
    let samples = ["", "a", "a-b", "a.rs", "ab", "b", "é", "z", "Z", "日本", "a0"];
    for a in samples {
        for b in samples {
            let expected = if a < b {
                Rank::Before
            } else if a == b {
                Rank::Same
            } else {
                Rank::After
            };
            assert_eq!(rank_names(a, b), expected);
            assert_eq!(same_name(a, b), a == b);
        }
    }
}

#[test]
fn rank_orders_paths_by_components() {
    // as text "a-b" comes before "a/b"; as paths "a" comes before "a-b"
    assert_eq!(path(&["a", "b"]).rank(&path(&["a-b"])), Rank::Before);
    assert_eq!(path(&["a"]).rank(&path(&["a", "b"])), Rank::Before);
    assert_eq!(path(&["a", "b"]).rank(&path(&["a", "b"])), Rank::Same);
    assert_eq!(path(&["b"]).rank(&path(&["a", "z"])), Rank::After);
    let samples = [
        path(&[]),
        path(&["a"]),
        path(&["a", "b"]),
        path(&["a-b"]),
        path(&["a", "b", "c"]),
        path(&["a", "c"]),
        path(&["src", "main.rs"]),
        path(&["src", "bin", "cli.rs"]),
        path(&["tests", "it.rs"]),
        path(&["Cargo.toml"]),
    ];
    for a in &samples {
        for b in &samples {
            let expected = if a < b {
                Rank::Before
            } else if a == b {
                Rank::Same
            } else {
                Rank::After
            };
            assert_eq!(a.rank(b), expected);
        }
    }
}
