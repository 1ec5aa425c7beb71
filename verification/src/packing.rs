//! The packing rule, as mathematics: how an ordered list of block costs is
//! cut into parts under a line budget, and what holds of every such cut.

use vstd::prelude::*;
use crate::text::part_path_text;
use crate::types::{files_in, lines_in, PartSummaryView, SnapshotResultView};

verus! {

/// Lines that one file adds to a part: its header line, its own lines and
/// the two separator lines that follow it.
pub open spec fn block_cost(line_count: nat) -> nat {
    1 + line_count + 2
}

/// The block costs of files with the given line counts, in the same order.
pub open spec fn block_costs(line_counts: Seq<usize>) -> Seq<nat> {
    Seq::new(line_counts.len(), |i: int| block_cost(line_counts[i] as nat))
}

/// Sum of the costs.
pub open spec fn total(costs: Seq<nat>) -> nat
    decreases costs.len(),
{
    if costs.len() == 0 {
        0
    } else {
        total(costs.drop_last()) + costs.last()
    }
}

/// The groups laid end to end.
pub open spec fn concat(groups: Seq<Seq<nat>>) -> Seq<nat>
    decreases groups.len(),
{
    if groups.len() == 0 {
        Seq::empty()
    } else {
        concat(groups.drop_last()) + groups.last()
    }
}

/// A block that meets or exceeds the budget cannot share a part.
pub open spec fn oversized(cost: nat, max_lines: nat) -> bool {
    cost >= max_lines
}

/// State of the packing between two files: the parts that are finished, each
/// as the costs of its blocks, and the blocks of the part that is still
/// filling (empty when no part is open).
pub struct Packing {
    pub sealed: Seq<Seq<nat>>,
    pub current: Seq<nat>,
}

impl Packing {
    /// Before the first file: nothing finished, no part open.
    pub open spec fn start() -> Packing {
        Packing { sealed: Seq::empty(), current: Seq::empty() }
    }

    /// Finishes the open part, if there is one.
    pub open spec fn seal(self) -> Packing {
        if self.current.len() > 0 {
            Packing { sealed: self.sealed.push(self.current), current: Seq::empty() }
        } else {
            self
        }
    }

    /// Places one block. An oversized block finishes the open part and then
    /// forms a part of its own, which is finished at once. Any other block
    /// joins the open part, after that part was finished and a new one opened
    /// if the block would have taken it over the budget.
    pub open spec fn place(self, cost: nat, max_lines: nat) -> Packing {
        if oversized(cost, max_lines) {
            Packing { sealed: self.seal().sealed.push(seq![cost]), current: Seq::empty() }
        } else if self.current.len() > 0 && total(self.current) + cost > max_lines {
            Packing { sealed: self.sealed.push(self.current), current: seq![cost] }
        } else {
            Packing { sealed: self.sealed, current: self.current.push(cost) }
        }
    }

    /// The state after the blocks of `costs` were placed in order.
    pub open spec fn after(costs: Seq<nat>, max_lines: nat) -> Packing
        decreases costs.len(),
    {
        if costs.len() == 0 {
            Packing::start()
        } else {
            Packing::after(costs.drop_last(), max_lines).place(costs.last(), max_lines)
        }
    }
}

/// The parts into which the blocks of `costs` are packed under the budget
/// `max_lines`, each part as the costs of its blocks.
pub open spec fn pack(costs: Seq<nat>, max_lines: nat) -> Seq<Seq<nat>> {
    Packing::after(costs, max_lines).seal().sealed
}

/// A part that holds one oversized block and nothing else.
pub open spec fn isolated(group: Seq<nat>, max_lines: nat) -> bool {
    group.len() == 1 && oversized(group[0], max_lines)
}

/// A part of one or more blocks, none of them oversized, that keeps within
/// the budget.
pub open spec fn regular(group: Seq<nat>, max_lines: nat) -> bool {
    &&& group.len() > 0
    &&& total(group) <= max_lines
    &&& forall|j: int| 0 <= j < group.len() ==> !oversized(#[trigger] group[j], max_lines)
}

/// The cut between `group` and its successor `next` was forced: one of the
/// two is an isolated oversized block, or the first block of `next` did not
/// fit into `group` any more.
pub open spec fn forced_cut(group: Seq<nat>, next: Seq<nat>, max_lines: nat) -> bool {
    ||| isolated(group, max_lines)
    ||| isolated(next, max_lines)
    ||| total(group) + next[0] > max_lines
}

/// `groups` cuts `costs` into parts as the packing rule demands: the parts,
/// laid end to end, are the blocks in their order; each part keeps within
/// the budget without an oversized block, or is one oversized block alone;
/// and every cut between two parts was forced.
pub open spec fn well_cut(groups: Seq<Seq<nat>>, costs: Seq<nat>, max_lines: nat) -> bool {
    &&& concat(groups) == costs
    &&& forall|k: int|
        0 <= k < groups.len() ==> {
            ||| regular(#[trigger] groups[k], max_lines)
            ||| isolated(groups[k], max_lines)
        }
    &&& forall|k: int|
        0 <= k < groups.len() - 1 ==> forced_cut(#[trigger] groups[k], groups[k + 1], max_lines)
}

/// The summary of part `k` (counted from 0) of `groups`, for part files
/// that lie in the directory `dest` and are named after `prefix`.
pub open spec fn summary_of(
    groups: Seq<Seq<nat>>,
    dest: Seq<char>,
    prefix: Seq<char>,
    k: int,
) -> PartSummaryView {
    PartSummaryView {
        part_index: (k + 1) as nat,
        file_count: groups[k].len(),
        line_count: total(groups[k]),
        filename: part_path_text(dest, prefix, (k + 1) as nat),
    }
}

/// The summaries of all parts of `groups`, in order.
pub open spec fn summaries(
    groups: Seq<Seq<nat>>,
    dest: Seq<char>,
    prefix: Seq<char>,
) -> Seq<PartSummaryView> {
    Seq::new(groups.len(), |k: int| summary_of(groups, dest, prefix, k))
}

/// What a run returns for files with the given block costs, for part files
/// that lie in the directory `dest` and are named after `prefix`.
pub open spec fn snapshot_of(
    costs: Seq<nat>,
    max_lines: nat,
    dest: Seq<char>,
    prefix: Seq<char>,
) -> SnapshotResultView {
    SnapshotResultView {
        parts: summaries(pack(costs, max_lines), dest, prefix),
        total_files: costs.len(),
        total_lines: total(costs),
    }
}

/// The sum over two runs of costs laid end to end is the sum of their sums.
pub proof fn lemma_total_of_joined(a: Seq<nat>, b: Seq<nat>)
    ensures
        total(a + b) == total(a) + total(b),
    decreases b.len(),
{
    if b.len() == 0 {
        assert(a + b =~= a);
    } else {
        assert((a + b).drop_last() =~= a + b.drop_last());
        lemma_total_of_joined(a, b.drop_last());
    }
}

/// Adding one cost at the end adds it to the sum.
pub proof fn lemma_total_of_pushed(costs: Seq<nat>, cost: nat)
    ensures
        total(costs.push(cost)) == total(costs) + cost,
        total(seq![cost]) == cost,
{
    assert(costs.push(cost).drop_last() =~= costs);
    assert(seq![cost].drop_last() =~= Seq::<nat>::empty());
    assert(total(Seq::<nat>::empty()) == 0);
}

/// Adding one group at the end appends its blocks.
pub proof fn lemma_concat_of_pushed(groups: Seq<Seq<nat>>, group: Seq<nat>)
    ensures
        concat(groups.push(group)) == concat(groups) + group,
{
    assert(groups.push(group).drop_last() =~= groups);
}

spec fn packed_well(p: Packing, costs: Seq<nat>, max_lines: nat) -> bool {
    &&& concat(p.sealed) + p.current == costs
    &&& forall|k: int|
        0 <= k < p.sealed.len() ==> {
            ||| regular(#[trigger] p.sealed[k], max_lines)
            ||| isolated(p.sealed[k], max_lines)
        }
    &&& p.current.len() > 0 ==> regular(p.current, max_lines)
    &&& forall|k: int|
        0 <= k < p.sealed.len() - 1 ==> forced_cut(#[trigger] p.sealed[k], p.sealed[k + 1], max_lines)
    &&& p.sealed.len() > 0 && p.current.len() > 0 ==> forced_cut(p.sealed.last(), p.current, max_lines)
    &&& p.sealed.len() > 0 && p.current.len() == 0 ==> isolated(p.sealed.last(), max_lines)
}

proof fn lemma_place_keeps_packed_well(p: Packing, costs: Seq<nat>, cost: nat, max_lines: nat)
    requires
        packed_well(p, costs, max_lines),
    ensures
        packed_well(p.place(cost, max_lines), costs.push(cost), max_lines),
{
    let q = p.place(cost, max_lines);
    lemma_total_of_pushed(p.current, cost);
    if oversized(cost, max_lines) {
        let s = p.seal();
        lemma_concat_of_pushed(p.sealed, p.current);
        lemma_concat_of_pushed(s.sealed, seq![cost]);
        assert(concat(s.sealed) =~= costs);
        assert(concat(q.sealed) + q.current =~= costs.push(cost));
        assert(isolated(seq![cost], max_lines));
        assert forall|k: int| 0 <= k < q.sealed.len() - 1 implies forced_cut(
            #[trigger] q.sealed[k],
            q.sealed[k + 1],
            max_lines,
        ) by {
            if k + 1 == q.sealed.len() - 1 {
                assert(q.sealed[k + 1] == seq![cost]);
            } else if p.current.len() > 0 && k + 1 == s.sealed.len() - 1 {
                assert(q.sealed[k] == p.sealed.last());
                assert(q.sealed[k + 1] == p.current);
            } else {
                assert(q.sealed[k] == p.sealed[k]);
                assert(q.sealed[k + 1] == p.sealed[k + 1]);
            }
        }
    } else if p.current.len() > 0 && total(p.current) + cost > max_lines {
        lemma_concat_of_pushed(p.sealed, p.current);
        assert(concat(q.sealed) + q.current =~= costs.push(cost));
        assert(regular(seq![cost], max_lines));
        assert forall|k: int| 0 <= k < q.sealed.len() - 1 implies forced_cut(
            #[trigger] q.sealed[k],
            q.sealed[k + 1],
            max_lines,
        ) by {
            if k + 1 == q.sealed.len() - 1 {
                assert(q.sealed[k] == p.sealed.last());
                assert(q.sealed[k + 1] == p.current);
            } else {
                assert(q.sealed[k] == p.sealed[k]);
                assert(q.sealed[k + 1] == p.sealed[k + 1]);
            }
        }
        assert(q.current[0] == cost);
    } else {
        assert(concat(q.sealed) + q.current =~= costs.push(cost));
        assert(regular(q.current, max_lines)) by {
            if p.current.len() == 0 {
                assert(q.current =~= seq![cost]);
            }
            assert forall|j: int| 0 <= j < q.current.len() implies !oversized(
                #[trigger] q.current[j],
                max_lines,
            ) by {
                if j < p.current.len() {
                    assert(q.current[j] == p.current[j]);
                }
            }
        }
        if p.current.len() > 0 {
            assert(q.current[0] == p.current[0]);
        }
    }
}

proof fn lemma_after_packed_well(costs: Seq<nat>, max_lines: nat)
    ensures
        packed_well(Packing::after(costs, max_lines), costs, max_lines),
    decreases costs.len(),
{
    if costs.len() == 0 {
        assert(concat(Packing::start().sealed) + Packing::start().current =~= costs);
    } else {
        lemma_after_packed_well(costs.drop_last(), max_lines);
        lemma_place_keeps_packed_well(
            Packing::after(costs.drop_last(), max_lines),
            costs.drop_last(),
            costs.last(),
            max_lines,
        );
        assert(costs.drop_last().push(costs.last()) =~= costs);
    }
}

/// Between two files, the finished parts and the open part, laid end to
/// end, are the files placed so far.
pub proof fn lemma_state_keeps_every_file(costs: Seq<nat>, max_lines: nat)
    ensures
        concat(Packing::after(costs, max_lines).sealed) + Packing::after(costs, max_lines).current
            == costs,
{
    lemma_after_packed_well(costs, max_lines);
}

/// No file is lost, split or moved: the parts, laid end to end, are the
/// files in their order, and no part is empty.
pub proof fn lemma_pack_keeps_every_file(costs: Seq<nat>, max_lines: nat)
    ensures
        concat(pack(costs, max_lines)) == costs,
        forall|k: int| 0 <= k < pack(costs, max_lines).len() ==> (#[trigger] pack(costs, max_lines)[k]).len() > 0,
{
    lemma_after_packed_well(costs, max_lines);
    let p = Packing::after(costs, max_lines);
    if p.current.len() > 0 {
        lemma_concat_of_pushed(p.sealed, p.current);
    } else {
        assert(concat(p.sealed) + p.current =~= concat(p.sealed));
    }
}

/// Every part keeps within the budget, but for a part that holds one
/// oversized file and nothing else.
pub proof fn lemma_parts_within_budget(costs: Seq<nat>, max_lines: nat)
    ensures
        forall|k: int|
            0 <= k < pack(costs, max_lines).len() ==> {
                ||| total(#[trigger] pack(costs, max_lines)[k]) <= max_lines
                ||| isolated(pack(costs, max_lines)[k], max_lines)
            },
{
    lemma_after_packed_well(costs, max_lines);
}

/// A file whose block meets or exceeds the budget is alone in its part.
pub proof fn lemma_oversized_is_alone(costs: Seq<nat>, max_lines: nat)
    ensures
        forall|k: int, j: int|
            0 <= k < pack(costs, max_lines).len() && 0 <= j < pack(costs, max_lines)[k].len()
                && oversized(#[trigger] pack(costs, max_lines)[k][j], max_lines)
                ==> pack(costs, max_lines)[k].len() == 1,
{
    lemma_after_packed_well(costs, max_lines);
    let groups = pack(costs, max_lines);
    assert forall|k: int, j: int|
        0 <= k < groups.len() && 0 <= j < groups[k].len() && oversized(
            #[trigger] groups[k][j],
            max_lines,
        ) implies groups[k].len() == 1 by {
        assert(regular(groups[k], max_lines) || isolated(groups[k], max_lines));
    }
}

/// Parts are cut greedily: wherever one part ends and the next begins, the
/// first file of the next did not fit into the part before it, or one of the
/// two parts holds an oversized file alone.
pub proof fn lemma_cuts_are_forced(costs: Seq<nat>, max_lines: nat)
    ensures
        forall|k: int|
            0 <= k < pack(costs, max_lines).len() - 1 ==> forced_cut(
                #[trigger] pack(costs, max_lines)[k],
                pack(costs, max_lines)[k + 1],
                max_lines,
            ),
{
    lemma_after_packed_well(costs, max_lines);
    let p = Packing::after(costs, max_lines);
    let groups = pack(costs, max_lines);
    assert forall|k: int| 0 <= k < groups.len() - 1 implies forced_cut(
        #[trigger] groups[k],
        groups[k + 1],
        max_lines,
    ) by {
        if p.current.len() > 0 && k + 1 == groups.len() - 1 {
            assert(groups[k] == p.sealed.last());
            assert(groups[k + 1] == p.current);
        } else {
            assert(groups[k] == p.sealed[k]);
            assert(groups[k + 1] == p.sealed[k + 1]);
        }
    }
}

/// The packing obeys the packing rule.
pub proof fn lemma_pack_is_well_cut(costs: Seq<nat>, max_lines: nat)
    ensures
        well_cut(pack(costs, max_lines), costs, max_lines),
{
    lemma_pack_keeps_every_file(costs, max_lines);
    lemma_after_packed_well(costs, max_lines);
    lemma_cuts_are_forced(costs, max_lines);
}

/// The packing rule leaves no choice: a cut of the blocks that obeys it is
/// the packing.
pub proof fn lemma_well_cut_is_pack(groups: Seq<Seq<nat>>, costs: Seq<nat>, max_lines: nat)
    requires
        well_cut(groups, costs, max_lines),
    ensures
        groups == pack(costs, max_lines),
    decreases costs.len(),
{
    if groups.len() == 0 {
        assert(costs.len() == 0);
        assert(pack(costs, max_lines) =~= groups);
    } else {
        let last = groups.last();
        let front = groups.drop_last();
        assert(regular(last, max_lines) || isolated(last, max_lines));
        assert(costs == concat(front) + last);
        let cost = costs.last();
        let earlier = costs.drop_last();
        assert(cost == last.last());
        let state = Packing::after(earlier, max_lines);
        lemma_after_packed_well(earlier, max_lines);
        assert(Packing::after(costs, max_lines) == state.place(cost, max_lines));
        assert forall|k: int| 0 <= k < front.len() implies {
            ||| regular(#[trigger] front[k], max_lines)
            ||| isolated(front[k], max_lines)
        } by {
            assert(front[k] == groups[k]);
        }
        assert forall|k: int| 0 <= k < front.len() - 1 implies forced_cut(
            #[trigger] front[k],
            front[k + 1],
            max_lines,
        ) by {
            assert(front[k] == groups[k] && front[k + 1] == groups[k + 1]);
        }
        if last.len() == 1 {
            assert(last =~= seq![cost]);
            assert(concat(front) =~= earlier);
            lemma_well_cut_is_pack(front, earlier, max_lines);
            if !oversized(cost, max_lines) && state.current.len() > 0 {
                assert(front.len() > 0);
                assert(front.last() == state.current);
                assert(forced_cut(groups[front.len() - 1], groups[front.len() - 1 + 1], max_lines));
                assert(groups[front.len() - 1] == state.current);
                lemma_total_of_pushed(Seq::<nat>::empty(), cost);
            }
            assert(pack(costs, max_lines) =~= front.push(seq![cost]));
            assert(groups =~= front.push(last));
        } else {
            let shorter = last.drop_last();
            let before = front.push(shorter);
            assert(last =~= shorter.push(cost));
            lemma_total_of_pushed(shorter, cost);
            lemma_concat_of_pushed(front, shorter);
            assert(concat(before) =~= earlier);
            assert(regular(shorter, max_lines)) by {
                assert forall|j: int| 0 <= j < shorter.len() implies !oversized(
                    #[trigger] shorter[j],
                    max_lines,
                ) by {
                    assert(shorter[j] == last[j]);
                }
            }
            assert forall|k: int| 0 <= k < before.len() implies {
                ||| regular(#[trigger] before[k], max_lines)
                ||| isolated(before[k], max_lines)
            } by {
                if k < front.len() {
                    assert(before[k] == front[k]);
                }
            }
            assert forall|k: int| 0 <= k < before.len() - 1 implies forced_cut(
                #[trigger] before[k],
                before[k + 1],
                max_lines,
            ) by {
                if k + 1 < front.len() {
                    assert(before[k] == front[k] && before[k + 1] == front[k + 1]);
                } else {
                    assert(before[k] == groups[k]);
                    assert(forced_cut(groups[k], groups[k + 1], max_lines));
                    assert(groups[k + 1] == last);
                    assert(shorter[0] == last[0]);
                }
            }
            lemma_well_cut_is_pack(before, earlier, max_lines);
            assert(before.last() == shorter);
            assert(!isolated(shorter, max_lines)) by {
                assert(!oversized(last[0], max_lines));
                assert(shorter[0] == last[0]);
            }
            assert(state.current == shorter);
            assert(!oversized(cost, max_lines)) by {
                assert(cost == last[last.len() - 1]);
            }
            assert(state.sealed =~= front) by {
                assert(state.sealed.push(state.current).drop_last() =~= state.sealed);
                assert(before.drop_last() =~= front);
            }
            assert(pack(costs, max_lines) =~= front.push(shorter.push(cost)));
            assert(groups =~= front.push(last));
        }
    }
}

/// The files and lines of the summaries of `groups` are the number and the
/// sum of the blocks in them.
pub proof fn lemma_summaries_add_up(groups: Seq<Seq<nat>>, dest: Seq<char>, prefix: Seq<char>)
    ensures
        files_in(summaries(groups, dest, prefix)) == concat(groups).len(),
        lines_in(summaries(groups, dest, prefix)) == total(concat(groups)),
    decreases groups.len(),
{
    if groups.len() > 0 {
        let front = groups.drop_last();
        assert(summaries(groups, dest, prefix).drop_last() =~= summaries(front, dest, prefix));
        lemma_summaries_add_up(front, dest, prefix);
        lemma_total_of_joined(concat(front), groups.last());
    }
}

/// The totals of a run are the sums over its parts, and its parts are
/// numbered from 1 in steps of 1.
pub proof fn lemma_snapshot_is_consistent(
    costs: Seq<nat>,
    max_lines: nat,
    dest: Seq<char>,
    prefix: Seq<char>,
)
    ensures
        snapshot_of(costs, max_lines, dest, prefix).consistent(),
{
    lemma_pack_keeps_every_file(costs, max_lines);
    lemma_summaries_add_up(pack(costs, max_lines), dest, prefix);
}

} // verus!
