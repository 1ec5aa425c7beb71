//! What a run returns: one summary per part, and the totals.

use vstd::prelude::*;

verus! {

/// One finished part.
#[derive(Debug, Clone, PartialEq, Eq)]
pub struct PartSummary {
    /// Position of the part in the order of emission, starting at 1.
    pub part_index: usize,
    /// Number of files in the part.
    pub file_count: usize,
    /// Number of lines in the part, headers and separators included.
    pub line_count: usize,
    /// Path of the file that holds the part, in the destination directory.
    pub filename: String,
}

/// Mathematical value of a [`PartSummary`].
pub struct PartSummaryView {
    pub part_index: nat,
    pub file_count: nat,
    pub line_count: nat,
    pub filename: Seq<char>,
}

impl View for PartSummary {
    type V = PartSummaryView;

    open spec fn view(&self) -> PartSummaryView {
        PartSummaryView {
            part_index: self.part_index as nat,
            file_count: self.file_count as nat,
            line_count: self.line_count as nat,
            filename: self.filename@,
        }
    }
}

/// The parts of a run in the order of emission, with the totals over them.
#[derive(Debug, Clone)]
pub struct SnapshotResult {
    pub parts: Vec<PartSummary>,
    pub total_files: usize,
    pub total_lines: usize,
}

/// Mathematical value of a [`SnapshotResult`].
pub struct SnapshotResultView {
    pub parts: Seq<PartSummaryView>,
    pub total_files: nat,
    pub total_lines: nat,
}

/// The values of a sequence of part summaries.
pub open spec fn part_views(parts: Seq<PartSummary>) -> Seq<PartSummaryView> {
    Seq::new(parts.len(), |i: int| parts[i]@)
}

impl View for SnapshotResult {
    type V = SnapshotResultView;

    open spec fn view(&self) -> SnapshotResultView {
        SnapshotResultView {
            parts: part_views(self.parts@),
            total_files: self.total_files as nat,
            total_lines: self.total_lines as nat,
        }
    }
}

/// Number of files in all of `parts`.
pub open spec fn files_in(parts: Seq<PartSummaryView>) -> nat
    decreases parts.len(),
{
    if parts.len() == 0 {
        0
    } else {
        files_in(parts.drop_last()) + parts.last().file_count
    }
}

/// Number of lines in all of `parts`.
pub open spec fn lines_in(parts: Seq<PartSummaryView>) -> nat
    decreases parts.len(),
{
    if parts.len() == 0 {
        0
    } else {
        lines_in(parts.drop_last()) + parts.last().line_count
    }
}

impl SnapshotResultView {
    /// The parts are numbered from 1 in steps of 1, and the totals are the
    /// sums over the parts.
    pub open spec fn consistent(self) -> bool {
        &&& forall|k: int| 0 <= k < self.parts.len() ==> (#[trigger] self.parts[k]).part_index == k + 1
        &&& self.total_files == files_in(self.parts)
        &&& self.total_lines == lines_in(self.parts)
    }
}

} // verus!
