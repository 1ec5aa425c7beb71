use snapshotter::report::render_summary;
use snapshotter::text::{
    block_header, block_trailer, decimal_string, join_text, last_component, part_file_name,
    part_path, summary_file_name,
};
use std::path::Path;
use snapshotter::utils::count_newlines;
use snapshotter::{PartSummary, SnapshotConfig, SnapshotResult, Snapshotter};

#[test]
fn decimal_string_writes_numbers() {
    assert_eq!(decimal_string(0), "0");
    assert_eq!(decimal_string(7), "7");
    assert_eq!(decimal_string(10), "10");
    assert_eq!(decimal_string(1500), "1500");
    assert_eq!(decimal_string(9876543210), "9876543210");
    assert_eq!(decimal_string(usize::MAX), format!("{}", usize::MAX));
    for n in 0..2000usize {
        assert_eq!(decimal_string(n), format!("{}", n));
    }
}

#[test]
fn part_file_name_has_prefix_number_and_ending() {
    assert_eq!(part_file_name("snap", 1), "snap_part1.txt");
    assert_eq!(part_file_name("snapshot", 12), "snapshot_part12.txt");
    assert_eq!(part_file_name("", 3), "_part3.txt");
}

#[test]
fn summary_file_name_has_prefix_and_ending() {
    assert_eq!(summary_file_name("snap"), "snap_summary.txt");
}

#[test]
fn block_header_is_one_line() {
    assert_eq!(block_header("./src/a.rs"), "# ./src/a.rs\n");
    assert_eq!(block_header(""), "# \n");
}

#[test]
fn summary_lists_parts_and_totals() {
    let result = SnapshotResult {
        parts: vec![
            PartSummary {
                part_index: 1,
                file_count: 2,
                line_count: 8,
                filename: "out/snap_part1.txt".to_string(),
            },
            PartSummary {
                part_index: 2,
                file_count: 1,
                line_count: 103,
                filename: "/var/tmp/snaps/snap_part2.txt".to_string(),
            },
        ],
        total_files: 3,
        total_lines: 111,
    };
    assert_eq!(
        render_summary(&result),
        "==== Résumé du snapshot ====\n\
         Part 1: 2 fichiers, 8 lignes -> snap_part1.txt\n\
         Part 2: 1 fichiers, 103 lignes -> snap_part2.txt\n\
         TOTAL: 3 fichiers, 111 lignes\n"
    );
}

#[test]
fn summary_of_a_run() {
    let cfg = SnapshotConfig::new(".", "snap", 10).unwrap().with_dest("out/deep");
    let result = Snapshotter::new(cfg).run(&vec![5, 5]).unwrap();
    assert_eq!(result.parts[0].filename, "out/deep/snap_part1.txt");
    assert_eq!(
        render_summary(&result),
        "==== Résumé du snapshot ====\n\
         Part 1: 1 fichiers, 8 lignes -> snap_part1.txt\n\
         Part 2: 1 fichiers, 8 lignes -> snap_part2.txt\n\
         TOTAL: 2 fichiers, 16 lignes\n"
    );
}

#[test]
fn summary_without_parts_has_title_and_totals() {
    let result = SnapshotResult { parts: Vec::new(), total_files: 0, total_lines: 0 };
    assert_eq!(
        render_summary(&result),
        "==== Résumé du snapshot ====\nTOTAL: 0 fichiers, 0 lignes\n"
    );
}

#[test]
fn block_trailer_is_two_line_terminators() {
    assert_eq!(block_trailer(), "\n\n");
}

#[test]
fn block_has_as_many_lines_as_it_costs() {
    for content in ["", "one line\n", "fn main() {\nprintln!(\"hello\");\n}\n", "no end", "é\n→\n\n"] {
        let block = format!("{}{}{}", block_header("./src/a.rs"), content, block_trailer());
        assert_eq!(count_newlines(&block), 1 + count_newlines(content) + 2);
    }
}

#[test]
fn join_text_joins_as_paths_are_joined() {
    assert_eq!(join_text("out", "snap_part1.txt"), "out/snap_part1.txt");
    assert_eq!(join_text(".", "snap_part1.txt"), "./snap_part1.txt");
    assert_eq!(join_text("out/", "a"), "out/a");
    assert_eq!(join_text("", "a"), "a");
    assert_eq!(join_text("out", "/abs/a"), "/abs/a");
    assert_eq!(join_text("out", ""), "out/");
    assert_eq!(join_text("", ""), "");
    assert_eq!(join_text("/", "a"), "/a");
    let dests = ["", ".", "out", "out/", "/", "/var/tmp", "a/b/", "é", "sous/répertoire"];
    let names = ["", "a", "snap_part1.txt", "/abs", "/", "sub/name", "é.txt", "./x"];
    for dest in dests {
        for name in names {
            let expected = Path::new(dest).join(name);
            assert_eq!(join_text(dest, name), expected.to_str().unwrap());
        }
    }
}

#[test]
fn part_path_is_the_part_name_in_the_destination() {
    assert_eq!(part_path("out", "snap", 1), "out/snap_part1.txt");
    assert_eq!(part_path(".", "snapshot", 12), "./snapshot_part12.txt");
    assert_eq!(part_path("", "snap", 3), "snap_part3.txt");
    assert_eq!(part_path("out", "/abs/snap", 3), "/abs/snap_part3.txt");
}

#[test]
fn last_component_is_what_follows_the_last_slash() {
    assert_eq!(last_component("out/snap_part1.txt"), "snap_part1.txt");
    assert_eq!(last_component("snap_part1.txt"), "snap_part1.txt");
    assert_eq!(last_component("/var/tmp/snaps/snap_part2.txt"), "snap_part2.txt");
    assert_eq!(last_component("./a"), "a");
    assert_eq!(last_component("/a"), "a");
    assert_eq!(last_component("répertoire/fichié.txt"), "fichié.txt");
    assert_eq!(last_component("out/"), "");
    assert_eq!(last_component("/"), "");
    assert_eq!(last_component(""), "");
    for dest in ["", ".", "out", "out/", "/", "/var/tmp", "a/b/", "é"] {
        for index in [1usize, 9, 10, 123] {
            let path = part_path(dest, "snap", index);
            assert_eq!(last_component(&path), part_file_name("snap", index));
            let by_std = Path::new(&path).file_name().and_then(|n| n.to_str()).unwrap_or_default();
            assert_eq!(last_component(&path), by_std);
        }
    }
}
