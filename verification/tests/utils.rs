use snapshotter::path::FilePath;
use snapshotter::lines::LineCounter;
use snapshotter::utils::{count_newlines, path_relative};

fn path(parts: &[&str]) -> FilePath {
    FilePath::new(parts.iter().map(|s| s.to_string()).collect())
}

#[test]
fn count_newlines_counts_terminators() {
    assert_eq!(count_newlines(""), 0);
    assert_eq!(count_newlines("abc"), 0);
    assert_eq!(count_newlines("\n"), 1);
    assert_eq!(count_newlines("a\nb\n"), 2);
    assert_eq!(count_newlines("a\nb"), 1);
    assert_eq!(count_newlines("\n\n\n"), 3);
    assert_eq!(count_newlines("a\r\nb\r\n"), 2);
    assert_eq!(count_newlines("é\nü\n→\n"), 3);
}

#[test]
fn line_counter_does_not_care_how_the_bytes_are_cut() {
    let text = b"fn main() {\nprintln!(\"hello\");\n}\n\nlast line without end";
    for cut in 0..=text.len() {
        let mut counter = LineCounter::new();
        assert!(counter.has_room(cut));
        counter.feed(&text[..cut]);
        counter.feed(&text[cut..]);
        assert_eq!(counter.lines(), 4);
    }
    let mut bytewise = LineCounter::new();
    for b in text.iter() {
        bytewise.feed(&[*b]);
    }
    assert_eq!(bytewise.lines(), 4);
}

#[test]
fn line_counter_starts_at_zero() {
    let counter = LineCounter::new();
    assert_eq!(counter.lines(), 0);
    assert!(counter.has_room(usize::MAX));
}

#[test]
fn line_counter_knows_its_room() {
    let mut counter = LineCounter::new();
    counter.feed(b"a\nb");
    assert!(counter.has_room(usize::MAX - 3));
    assert!(!counter.has_room(usize::MAX - 2));
}

#[test]
fn path_relative_puts_a_dot_for_the_base() {
    let root = path(&["", "home", "proj"]);
    let file = path(&["", "home", "proj", "src", "a.rs"]);
    let relative = path_relative(&file, &root);
    assert_eq!(relative, path(&[".", "src", "a.rs"]));
    assert_eq!(relative.display(), "./src/a.rs");
}

#[test]
fn path_relative_to_the_current_directory() {
    let relative = path_relative(&path(&[".", "src", "a.rs"]), &path(&["."]));
    assert_eq!(relative, path(&[".", "src", "a.rs"]));
}

#[test]
fn path_relative_keeps_a_path_outside_the_base() {
    let root = path(&["", "home", "proj"]);
    let file = path(&["", "home", "other", "a.rs"]);
    assert_eq!(path_relative(&file, &root), file);
    let short = path(&["", "home"]);
    assert_eq!(path_relative(&short, &root), short);
    // a name that only begins like the base's last name is not under it
    let near = path(&["", "home", "project", "a.rs"]);
    assert_eq!(path_relative(&near, &root), near);
}

#[test]
fn path_relative_of_the_base_itself_is_a_dot() {
    let root = path(&["", "home", "proj"]);
    assert_eq!(path_relative(&root, &root), path(&["."]));
}

#[test]
fn path_relative_to_the_empty_path() {
    let file = path(&["src", "a.rs"]);
    assert_eq!(path_relative(&file, &path(&[])), path(&[".", "src", "a.rs"]));
}
