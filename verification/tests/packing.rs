use snapshotter::writer::{PackingEngine, Placement};
use snapshotter::{PartSummary, SnapshotConfig, SnapshotError, SnapshotResult, Snapshotter};

fn runner(max_lines: usize) -> Snapshotter {
    Snapshotter::new(SnapshotConfig::new(".", "snap", max_lines).unwrap())
}

fn runner_into(dest: &str, max_lines: usize) -> Snapshotter {
    Snapshotter::new(SnapshotConfig::new("root", "snap", max_lines).unwrap().with_dest(dest))
}

fn part(part_index: usize, file_count: usize, line_count: usize, filename: &str) -> PartSummary {
    PartSummary { part_index, file_count, line_count, filename: filename.to_string() }
}

fn shapes(result: &SnapshotResult) -> Vec<(usize, usize, usize)> {
    result.parts.iter().map(|p| (p.part_index, p.file_count, p.line_count)).collect()
}

#[test]
fn one_small_file_makes_one_part() {
    let result = runner_into("out", 10).run(&vec![5]).unwrap();
    assert_eq!(result.parts, vec![part(1, 1, 8, "out/snap_part1.txt")]);
    assert_eq!(result.total_files, 1);
    assert_eq!(result.total_lines, 8);
}

#[test]
fn part_files_lie_in_the_destination() {
    let result = runner(10).run(&vec![5]).unwrap();
    assert_eq!(result.parts, vec![part(1, 1, 8, "./snap_part1.txt")]);
    let result = runner_into("out/", 10).run(&vec![5]).unwrap();
    assert_eq!(result.parts[0].filename, "out/snap_part1.txt");
    let result = runner_into("/var/tmp/snaps", 10).run(&vec![5, 5]).unwrap();
    assert_eq!(result.parts[0].filename, "/var/tmp/snaps/snap_part1.txt");
    assert_eq!(result.parts[1].filename, "/var/tmp/snaps/snap_part2.txt");
    let result = runner_into("", 10).run(&vec![5]).unwrap();
    assert_eq!(result.parts[0].filename, "snap_part1.txt");
    let rooted = Snapshotter::new(SnapshotConfig::new(".", "/abs/snap", 10).unwrap().with_dest("out"));
    assert_eq!(rooted.run(&vec![5]).unwrap().parts[0].filename, "/abs/snap_part1.txt");
}

#[test]
fn second_file_that_does_not_fit_opens_a_part() {
    let result = runner_into("out", 10).run(&vec![5, 5]).unwrap();
    assert_eq!(
        result.parts,
        vec![part(1, 1, 8, "out/snap_part1.txt"), part(2, 1, 8, "out/snap_part2.txt")]
    );
    assert_eq!(result.total_files, 2);
    assert_eq!(result.total_lines, 16);
}

#[test]
fn file_at_the_budget_is_isolated() {
    let result = runner_into("out", 10).run(&vec![7]).unwrap();
    assert_eq!(result.parts, vec![part(1, 1, 10, "out/snap_part1.txt")]);
    assert_eq!(result.total_files, 1);
    assert_eq!(result.total_lines, 10);
}

#[test]
fn file_at_the_budget_never_shares_a_part() {
    // costs 4, 10, 4: the middle one is exactly the budget
    let result = runner(10).run(&vec![1, 7, 1]).unwrap();
    assert_eq!(shapes(&result), vec![(1, 1, 4), (2, 1, 10), (3, 1, 4)]);
    // costs 3, 10: the first part would have had room for seven more lines
    let result = runner(10).run(&vec![0, 7]).unwrap();
    assert_eq!(shapes(&result), vec![(1, 1, 3), (2, 1, 10)]);
}

#[test]
fn file_over_the_budget_gets_a_part_that_exceeds_it() {
    let result = runner(10).run(&vec![1, 1, 100, 2]).unwrap();
    assert_eq!(shapes(&result), vec![(1, 2, 8), (2, 1, 103), (3, 1, 5)]);
    assert_eq!(result.total_files, 4);
    assert_eq!(result.total_lines, 116);
}

#[test]
fn files_fill_a_part_up_to_the_budget() {
    // costs 4, 5, 3, 4, 4: 4 + 5 = 9 fits, 9 + 3 = 12 does not
    let result = runner(11).run(&vec![1, 2, 0, 1, 1]).unwrap();
    assert_eq!(shapes(&result), vec![(1, 2, 9), (2, 3, 11)]);
    // a part may reach the budget exactly when several files make it up
    let result = runner(8).run(&vec![1, 1]).unwrap();
    assert_eq!(shapes(&result), vec![(1, 2, 8)]);
}

#[test]
fn two_files_that_fill_the_budget_exactly_share_a_part() {
    // costs 4 and 5 under a budget of 9
    let result = runner_into("out", 9).run(&vec![1, 2]).unwrap();
    assert_eq!(result.parts, vec![part(1, 2, 9, "out/snap_part1.txt")]);
    assert_eq!(result.total_files, 2);
    assert_eq!(result.total_lines, 9);
}

#[test]
fn no_files_is_an_error() {
    let res = runner(10).run(&Vec::new());
    assert!(matches!(res, Err(SnapshotError::NoFiles)));
}

#[test]
fn budget_of_one_line_isolates_every_file() {
    let result = runner(1).run(&vec![0, 0, 4]).unwrap();
    assert_eq!(shapes(&result), vec![(1, 1, 3), (2, 1, 3), (3, 1, 7)]);
}

#[test]
fn totals_are_the_sums_over_the_parts() {
    let counts = vec![3, 0, 12, 7, 7, 1, 40, 2, 2, 2, 9];
    for max_lines in [1usize, 5, 10, 13, 20, 50, 1000] {
        let result = runner(max_lines).run(&counts).unwrap();
        let files: usize = result.parts.iter().map(|p| p.file_count).sum();
        let lines: usize = result.parts.iter().map(|p| p.line_count).sum();
        assert_eq!(result.total_files, files);
        assert_eq!(result.total_lines, lines);
        assert_eq!(result.total_files, counts.len());
        assert_eq!(result.total_lines, counts.iter().map(|n| n + 3).sum::<usize>());
        for (k, part) in result.parts.iter().enumerate() {
            assert_eq!(part.part_index, k + 1);
            assert_eq!(part.filename, format!("./snap_part{}.txt", k + 1));
        }
    }
}

#[test]
fn parts_keep_within_the_budget_unless_isolated() {
    let counts = vec![3, 0, 12, 7, 7, 1, 40, 2, 2, 2, 9];
    for max_lines in [1usize, 5, 10, 13, 20, 50, 1000] {
        let result = runner(max_lines).run(&counts).unwrap();
        for part in &result.parts {
            assert!(part.file_count >= 1);
            assert!(part.line_count <= max_lines || part.file_count == 1);
        }
    }
}

#[test]
fn oversized_files_are_alone() {
    let counts = vec![3, 0, 12, 7, 7, 1, 40, 2, 2, 2, 9];
    for max_lines in [1usize, 5, 10, 13, 20, 50, 1000] {
        let result = runner(max_lines).run(&counts).unwrap();
        let mut next = 0;
        for part in &result.parts {
            let members = &counts[next..next + part.file_count];
            assert_eq!(part.line_count, members.iter().map(|n| n + 3).sum::<usize>());
            if members.iter().any(|n| n + 3 >= max_lines) {
                assert_eq!(part.file_count, 1);
            }
            next += part.file_count;
        }
        assert_eq!(next, counts.len());
    }
}

#[test]
fn cuts_are_made_only_where_forced() {
    let counts = vec![3, 0, 12, 7, 7, 1, 40, 2, 2, 2, 9];
    for max_lines in [5usize, 10, 13, 20, 50, 1000] {
        let result = runner(max_lines).run(&counts).unwrap();
        let mut next = 0;
        for pair in result.parts.windows(2) {
            let first_of_next = counts[next + pair[0].file_count] + 3;
            let isolated =
                |p: &PartSummary| p.file_count == 1 && p.line_count >= max_lines;
            assert!(
                isolated(&pair[0])
                    || isolated(&pair[1])
                    || pair[0].line_count + first_of_next > max_lines
            );
            next += pair[0].file_count;
        }
    }
}

#[test]
fn dry_run_gives_the_same_parts_and_totals() {
    let counts = vec![3, 0, 12, 7, 7, 1, 40];
    let wet = Snapshotter::new(SnapshotConfig::new(".", "snap", 13).unwrap().with_dest("out"));
    let dry = Snapshotter::new(
        SnapshotConfig::new(".", "snap", 13).unwrap().with_dest("out").with_dry_run(true),
    );
    let a = wet.run(&counts).unwrap();
    let b = dry.run(&counts).unwrap();
    assert_eq!(a.parts, b.parts);
    assert_eq!(a.parts[0].filename, "out/snap_part1.txt");
    assert_eq!(a.total_files, b.total_files);
    assert_eq!(a.total_lines, b.total_lines);
}

#[test]
fn running_twice_gives_the_same_result() {
    let counts = vec![3, 0, 12, 7, 7, 1, 40];
    let a = runner(13).run(&counts).unwrap();
    let b = runner(13).run(&counts).unwrap();
    assert_eq!(a.parts, b.parts);
    assert_eq!((a.total_files, a.total_lines), (b.total_files, b.total_lines));
}

#[test]
fn engine_places_each_block_in_turn() {
    let mut engine = PackingEngine::new("out", "snap", 10);
    let mut placements: Vec<Placement> = Vec::new();
    for count in [1usize, 1, 2, 7, 0, 0, 0, 0] {
        assert!(engine.can_push(count));
        placements.push(engine.push(count));
    }
    let place = |part_index, starts_part, ends_part| Placement { part_index, starts_part, ends_part };
    assert_eq!(
        placements,
        vec![
            place(1, true, false),
            place(1, false, false),
            place(2, true, false),
            place(3, true, true),
            place(4, true, false),
            place(4, false, false),
            place(4, false, false),
            place(5, true, false),
        ]
    );
    let result = engine.finish();
    assert_eq!(shapes(&result), vec![(1, 2, 8), (2, 1, 5), (3, 1, 10), (4, 3, 9), (5, 1, 3)]);
    for (k, part) in result.parts.iter().enumerate() {
        assert_eq!(part.filename, format!("out/snap_part{}.txt", k + 1));
    }
}

#[test]
fn engine_agrees_with_run() {
    let counts = vec![3, 0, 12, 7, 7, 1, 40, 2, 2, 2, 9];
    for max_lines in [1usize, 5, 10, 13, 20, 50, 1000] {
        let snapshotter = runner(max_lines);
        let mut engine = snapshotter.begin(counts.len()).unwrap();
        for count in &counts {
            engine.push(*count);
        }
        let stepwise = engine.finish();
        let whole = snapshotter.run(&counts).unwrap();
        assert_eq!(stepwise.parts, whole.parts);
        assert_eq!(stepwise.total_files, whole.total_files);
        assert_eq!(stepwise.total_lines, whole.total_lines);
    }
}

#[test]
fn engine_without_files_has_no_parts() {
    let result = PackingEngine::new("out", "snap", 10).finish();
    assert!(result.parts.is_empty());
    assert_eq!((result.total_files, result.total_lines), (0, 0));
}

#[test]
fn engine_refuses_what_the_counters_cannot_hold() {
    let mut engine = PackingEngine::new("out", "snap", 10);
    assert!(!engine.can_push(usize::MAX));
    assert!(!engine.can_push(usize::MAX - 2));
    assert!(engine.can_push(usize::MAX - 3));
    engine.push(usize::MAX - 10);
    assert!(engine.can_push(4));
    assert!(!engine.can_push(5));
}

#[test]
fn begin_without_files_is_an_error() {
    assert!(matches!(runner(10).begin(0), Err(SnapshotError::NoFiles)));
    assert!(runner(10).begin(1).is_ok());
}
