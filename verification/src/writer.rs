//! The packing engine: it takes the files one by one, by their line counts,
//! decides where each block goes, and keeps the summaries of the parts.

use vstd::prelude::*;
use crate::collector::{collected, lemma_listing_order_is_irrelevant, TreeEntryView};
use crate::config::{SnapshotConfig, SnapshotConfigView};
use crate::error::{SnapshotError, SnapshotErrorView};
use crate::packing::{
    block_cost, block_costs, concat, lemma_concat_of_pushed, lemma_pack_keeps_every_file,
    lemma_snapshot_is_consistent, lemma_state_keeps_every_file, lemma_total_of_joined,
    lemma_total_of_pushed, oversized, pack, snapshot_of, summaries, total, Packing,
};
use crate::text::part_path;
use crate::types::{part_views, PartSummary, SnapshotResult, SnapshotResultView};

verus! {

/// Where the block of one file goes.
#[derive(Clone, Copy, Debug, PartialEq, Eq)]
pub struct Placement {
    /// Number of the part that receives the block.
    pub part_index: usize,
    /// The block is the first of its part: the part has to be created.
    pub starts_part: bool,
    /// The block is the last of its part: nothing else will be written to it.
    pub ends_part: bool,
}

/// The part that is filling, if any.
#[derive(Clone, Copy, Debug)]
enum Fill {
    /// No part is open.
    Idle,
    /// A part is open and holds `files` blocks of `lines` lines together.
    Filling { files: usize, lines: usize },
}

/// Packs files into parts, one file at a time.
pub struct PackingEngine {
    dest_dir: String,
    prefix: String,
    max_lines: usize,
    part_index: usize,
    fill: Fill,
    parts: Vec<PartSummary>,
    total_files: usize,
    total_lines: usize,
    seen: Ghost<Seq<nat>>,
}

impl PackingEngine {
    /// The block costs of the files taken so far, in order.
    pub closed spec fn seen(&self) -> Seq<nat> {
        self.seen@
    }

    /// The line budget of a part.
    pub closed spec fn max_lines(&self) -> nat {
        self.max_lines as nat
    }

    /// The directory in which the part files lie.
    pub closed spec fn dest_dir(&self) -> Seq<char> {
        self.dest_dir@
    }

    /// Start of the name of every part file.
    pub closed spec fn prefix(&self) -> Seq<char> {
        self.prefix@
    }

    spec fn holds(&self, sealed: Seq<Seq<nat>>) -> bool {
        &&& part_views(self.parts@) == summaries(sealed, self.dest_dir@, self.prefix@)
        &&& self.part_index == sealed.len() + 1
        &&& self.total_files == concat(sealed).len()
        &&& self.total_lines == total(concat(sealed))
        &&& sealed.len() <= concat(sealed).len()
    }

    spec fn fills(&self, current: Seq<nat>) -> bool {
        match self.fill {
            Fill::Idle => current.len() == 0,
            Fill::Filling { files, lines } => {
                &&& current.len() > 0
                &&& files == current.len()
                &&& lines == total(current)
            },
        }
    }

    /// The counters agree with the files taken so far.
    pub closed spec fn wf(&self) -> bool {
        let p = Packing::after(self.seen@, self.max_lines as nat);
        &&& self.holds(p.sealed)
        &&& self.fills(p.current)
        &&& 3 * self.seen@.len() <= total(self.seen@) <= usize::MAX
    }

    /// The counters have room for a file of `line_count` lines.
    pub open spec fn accepts(&self, line_count: usize) -> bool {
        total(self.seen()) + block_cost(line_count as nat) <= usize::MAX
    }

    /// An engine that has taken no file yet, for part files that lie in
    /// `dest_dir` and are named after `prefix`.
    pub fn new(dest_dir: &str, prefix: &str, max_lines: usize) -> (engine: PackingEngine)
        ensures
            engine.wf(),
            engine.seen() == Seq::<nat>::empty(),
            engine.max_lines() == max_lines,
            engine.dest_dir() == dest_dir@,
            engine.prefix() == prefix@,
    {
        let engine = PackingEngine {
            dest_dir: dest_dir.to_owned(),
            prefix: prefix.to_owned(),
            max_lines,
            part_index: 1,
            fill: Fill::Idle,
            parts: Vec::new(),
            total_files: 0,
            total_lines: 0,
            seen: Ghost(Seq::empty()),
        };
        proof {
            let p = Packing::after(engine.seen@, max_lines as nat);
            assert(part_views(engine.parts@) =~= summaries(
                p.sealed,
                engine.dest_dir@,
                engine.prefix@,
            ));
        }
        engine
    }

    /// Whether the counters have room for a file of `line_count` lines.
    pub fn can_push(&self, line_count: usize) -> (room: bool)
        requires
            self.wf(),
        ensures
            room == self.accepts(line_count),
    {
        proof {
            let p = Packing::after(self.seen@, self.max_lines as nat);
            lemma_state_keeps_every_file(self.seen@, self.max_lines as nat);
            lemma_total_of_joined(concat(p.sealed), p.current);
        }
        let open_lines = match self.fill {
            Fill::Idle => 0,
            Fill::Filling { files: _, lines } => lines,
        };
        let taken = self.total_lines + open_lines;
        line_count <= usize::MAX - 3 && taken <= usize::MAX - 3 - line_count
    }

    fn seal(
        &mut self,
        files: usize,
        lines: usize,
        Ghost(sealed): Ghost<Seq<Seq<nat>>>,
        Ghost(group): Ghost<Seq<nat>>,
    )
        requires
            old(self).holds(sealed),
            group.len() > 0,
            files == group.len(),
            lines == total(group),
            concat(sealed).len() + group.len() + 1 <= usize::MAX,
            total(concat(sealed)) + total(group) <= usize::MAX,
        ensures
            final(self).holds(sealed.push(group)),
            final(self).fill == old(self).fill,
            final(self).dest_dir == old(self).dest_dir,
            final(self).prefix == old(self).prefix,
            final(self).max_lines == old(self).max_lines,
            final(self).seen == old(self).seen,
    {
        let ghost parts_before = self.parts@;
        let summary = PartSummary {
            part_index: self.part_index,
            file_count: files,
            line_count: lines,
            filename: part_path(self.dest_dir.as_str(), self.prefix.as_str(), self.part_index),
        };
        self.parts.push(summary);
        self.total_files = self.total_files + files;
        self.total_lines = self.total_lines + lines;
        self.part_index = self.part_index + 1;
        proof {
            let dest = self.dest_dir@;
            let prefix = self.prefix@;
            let grown = sealed.push(group);
            lemma_concat_of_pushed(sealed, group);
            lemma_total_of_joined(concat(sealed), group);
            assert(part_views(parts_before).len() == summaries(sealed, dest, prefix).len());
            assert forall|k: int| 0 <= k < self.parts@.len() implies part_views(self.parts@)[k]
                == summaries(grown, dest, prefix)[k] by {
                if k < sealed.len() {
                    assert(part_views(parts_before)[k] == summaries(sealed, dest, prefix)[k]);
                    assert(grown[k] == sealed[k]);
                }
            }
            assert(part_views(self.parts@) =~= summaries(grown, dest, prefix));
        }
    }

    /// Takes the next file, of `line_count` lines, and says where its block
    /// goes: into the last part of the packing of all files taken so far.
    pub fn push(&mut self, line_count: usize) -> (placement: Placement)
        requires
            old(self).wf(),
            old(self).accepts(line_count),
        ensures
            final(self).wf(),
            final(self).seen() == old(self).seen().push(block_cost(line_count as nat)),
            final(self).max_lines() == old(self).max_lines(),
            final(self).dest_dir() == old(self).dest_dir(),
            final(self).prefix() == old(self).prefix(),
            placement.part_index == pack(final(self).seen(), old(self).max_lines()).len(),
            placement.starts_part == (pack(final(self).seen(), old(self).max_lines()).last().len() == 1),
            placement.ends_part == oversized(block_cost(line_count as nat), old(self).max_lines()),
    {
        let ghost max = self.max_lines as nat;
        let ghost before = Packing::after(self.seen@, max);
        let ghost cost_nat = block_cost(line_count as nat);
        let ghost taken = self.seen@.push(cost_nat);
        let ghost after = before.place(cost_nat, max);
        let ghost alone = Seq::<nat>::empty().push(cost_nat);
        proof {
            lemma_state_keeps_every_file(self.seen@, max);
            lemma_total_of_joined(concat(before.sealed), before.current);
            lemma_total_of_pushed(self.seen@, cost_nat);
            lemma_total_of_pushed(before.current, cost_nat);
            lemma_concat_of_pushed(before.sealed, before.current);
            assert((concat(before.sealed) + before.current).len() == self.seen@.len());
            assert(taken.drop_last() =~= self.seen@);
            assert(Packing::after(taken, max) == after);
            assert(alone =~= seq![cost_nat]);
        }
        let cost = 1 + line_count + 2;
        let placement;
        if cost >= self.max_lines {
            match self.fill {
                Fill::Filling { files, lines } => {
                    self.seal(files, lines, Ghost(before.sealed), Ghost(before.current));
                },
                Fill::Idle => {},
            }
            let index = self.part_index;
            self.seal(1, cost, Ghost(before.seal().sealed), Ghost(alone));
            self.fill = Fill::Idle;
            placement = Placement { part_index: index, starts_part: true, ends_part: true };
        } else {
            match self.fill {
                Fill::Filling { files, lines } => {
                    if lines + cost > self.max_lines {
                        self.seal(files, lines, Ghost(before.sealed), Ghost(before.current));
                        self.fill = Fill::Filling { files: 1, lines: cost };
                        placement = Placement {
                            part_index: self.part_index,
                            starts_part: true,
                            ends_part: false,
                        };
                    } else {
                        self.fill = Fill::Filling { files: files + 1, lines: lines + cost };
                        placement = Placement {
                            part_index: self.part_index,
                            starts_part: false,
                            ends_part: false,
                        };
                    }
                },
                Fill::Idle => {
                    self.fill = Fill::Filling { files: 1, lines: cost };
                    placement = Placement {
                        part_index: self.part_index,
                        starts_part: true,
                        ends_part: false,
                    };
                    proof {
                        assert(after.current =~= seq![cost_nat]);
                    }
                },
            }
        }
        self.seen = Ghost(taken);
        placement
    }

    /// Finishes the part that is still open and hands out the summaries of
    /// all parts with the totals.
    pub fn finish(self) -> (result: SnapshotResult)
        requires
            self.wf(),
        ensures
            result@ == snapshot_of(self.seen(), self.max_lines(), self.dest_dir(), self.prefix()),
            result@.consistent(),
    {
        let ghost max = self.max_lines as nat;
        let ghost before = Packing::after(self.seen@, max);
        let ghost seen = self.seen@;
        let ghost prefix = self.prefix@;
        let ghost dest = self.dest_dir@;
        proof {
            lemma_state_keeps_every_file(self.seen@, max);
            lemma_pack_keeps_every_file(self.seen@, max);
            lemma_total_of_joined(concat(before.sealed), before.current);
            lemma_snapshot_is_consistent(self.seen@, max, self.dest_dir@, self.prefix@);
        }
        let mut engine = self;
        match engine.fill {
            Fill::Filling { files, lines } => {
                engine.seal(files, lines, Ghost(before.sealed), Ghost(before.current));
            },
            Fill::Idle => {},
        }
        let result = SnapshotResult {
            parts: engine.parts,
            total_files: engine.total_files,
            total_lines: engine.total_lines,
        };
        proof {
            assert(result@.parts == summaries(pack(seen, max), dest, prefix));
        }
        result
    }
}

/// What a run returns for files with the given line counts: an error when
/// there is no file, else the packing of their blocks.
pub open spec fn outcome(cfg: SnapshotConfigView, line_counts: Seq<usize>) -> Result<
    SnapshotResultView,
    SnapshotErrorView,
> {
    if line_counts.len() == 0 {
        Err(SnapshotErrorView::NoFiles)
    } else {
        Ok(snapshot_of(block_costs(line_counts), cfg.max_lines, cfg.dest_dir, cfg.prefix))
    }
}

/// The value of what a run returned.
pub open spec fn outcome_view(res: Result<SnapshotResult, SnapshotError>) -> Result<
    SnapshotResultView,
    SnapshotErrorView,
> {
    match res {
        Ok(result) => Ok(result@),
        Err(error) => Err(error@),
    }
}

/// A run, with its settings.
pub struct Snapshotter {
    cfg: SnapshotConfig,
}

impl Snapshotter {
    /// The settings of the run.
    pub closed spec fn config(&self) -> SnapshotConfigView {
        self.cfg@
    }

    /// A run with the settings `cfg`.
    pub fn new(cfg: SnapshotConfig) -> (snapshotter: Snapshotter)
        ensures
            snapshotter.config() == cfg@,
    {
        Snapshotter { cfg }
    }

    /// Starts the packing of `file_count` files: hands out an engine with the
    /// destination, the prefix and the budget of this run, which takes them
    /// one by one.
    /// Without any file there is nothing to pack, which is an error.
    pub fn begin(&self, file_count: usize) -> (res: Result<PackingEngine, SnapshotError>)
        ensures
            file_count == 0 ==> (res matches Err(e) && e@ == SnapshotErrorView::NoFiles),
            file_count > 0 ==> (res matches Ok(engine) && engine.wf() && engine.seen() == Seq::<
                nat,
            >::empty() && engine.max_lines() == self.config().max_lines && engine.dest_dir()
                == self.config().dest_dir && engine.prefix() == self.config().prefix),
    {
        if file_count == 0 {
            return Err(SnapshotError::NoFiles);
        }
        Ok(
            PackingEngine::new(
                self.cfg.dest_dir.as_str(),
                self.cfg.prefix.as_str(),
                self.cfg.max_lines,
            ),
        )
    }

    /// Packs the files with the given line counts, taken in order, and
    /// returns the summaries of the parts with the totals. Without any file
    /// there is nothing to pack, which is an error.
    pub fn run(&self, line_counts: &Vec<usize>) -> (res: Result<SnapshotResult, SnapshotError>)
        requires
            total(block_costs(line_counts@)) <= usize::MAX,
        ensures
            outcome_view(res) == outcome(self.config(), line_counts@),
            res matches Ok(result) ==> result@.consistent(),
    {
        let ghost costs = block_costs(line_counts@);
        let mut engine = match self.begin(line_counts.len()) {
            Ok(engine) => engine,
            Err(error) => {
                return Err(error);
            },
        };
        let mut i: usize = 0;
        while i < line_counts.len()
            invariant
                i <= line_counts@.len(),
                costs == block_costs(line_counts@),
                total(costs) <= usize::MAX,
                engine.wf(),
                engine.seen() == costs.subrange(0, i as int),
                engine.max_lines() == self.config().max_lines,
                engine.dest_dir() == self.config().dest_dir,
                engine.prefix() == self.config().prefix,
            decreases line_counts@.len() - i,
        {
            proof {
                let taken = costs.subrange(0, i + 1);
                assert(taken =~= costs.subrange(0, i as int).push(block_cost(line_counts@[i as int] as nat)));
                assert(costs =~= taken + costs.subrange(i + 1, costs.len() as int));
                lemma_total_of_joined(taken, costs.subrange(i + 1, costs.len() as int));
                lemma_total_of_pushed(costs.subrange(0, i as int), block_cost(line_counts@[i as int] as nat));
            }
            engine.push(line_counts[i]);
            i = i + 1;
        }
        proof {
            assert(costs.subrange(0, i as int) =~= costs);
        }
        Ok(engine.finish())
    }
}

/// Whether a run is a dry run decides nothing: with the same destination,
/// prefix and budget, the same files give the same parts and totals, or the
/// same error.
pub proof fn lemma_dry_run_decides_nothing(
    cfg: SnapshotConfigView,
    dry_run: bool,
    line_counts: Seq<usize>,
)
    ensures
        outcome(SnapshotConfigView { dry_run, ..cfg }, line_counts) == outcome(cfg, line_counts),
{
}

/// The line counts of the files of a list, where `lines_of` gives the line
/// count of the file at each path.
pub open spec fn line_counts_of(
    files: Seq<Seq<Seq<char>>>,
    lines_of: spec_fn(Seq<Seq<char>>) -> usize,
) -> Seq<usize> {
    Seq::new(files.len(), |i: int| lines_of(files[i]))
}

/// A snapshot is decided by the tree alone. Two listings of the same
/// entries, in whatever order they were read, give the same file list; and
/// where each file has the line count it had, the same parts and totals, or
/// the same error.
pub proof fn lemma_rerun_gives_the_same(
    cfg: SnapshotConfigView,
    root: Seq<Seq<char>>,
    first: Seq<TreeEntryView>,
    second: Seq<TreeEntryView>,
    first_files: Seq<Seq<Seq<char>>>,
    second_files: Seq<Seq<Seq<char>>>,
    lines_of: spec_fn(Seq<Seq<char>>) -> usize,
)
    requires
        forall|e: TreeEntryView| first.contains(e) <==> second.contains(e),
        collected(root, first, first_files),
        collected(root, second, second_files),
    ensures
        first_files == second_files,
        outcome(cfg, line_counts_of(first_files, lines_of)) == outcome(
            cfg,
            line_counts_of(second_files, lines_of),
        ),
{
    lemma_listing_order_is_irrelevant(root, first, second, first_files, second_files);
}

} // verus!
