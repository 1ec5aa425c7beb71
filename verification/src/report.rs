//! The summary report of a run, as text.

use vstd::prelude::*;
use vstd::string::*;
use crate::text::{decimal, decimal_string, last_component, last_component_text};
use crate::types::{part_views, PartSummary, PartSummaryView, SnapshotResult, SnapshotResultView};

verus! {

/// The line of the report that describes one part. Of the part's path it
/// shows what follows the last `/`.
pub open spec fn part_line_text(part: PartSummaryView) -> Seq<char> {
    "Part "@ + decimal(part.part_index) + ": "@ + decimal(part.file_count) + " fichiers, "@
        + decimal(part.line_count) + " lignes -> "@ + last_component_text(part.filename) + "\n"@
}

/// The lines of the report that describe the parts, in order.
pub open spec fn part_lines_text(parts: Seq<PartSummaryView>) -> Seq<char>
    decreases parts.len(),
{
    if parts.len() == 0 {
        Seq::empty()
    } else {
        part_lines_text(parts.drop_last()) + part_line_text(parts.last())
    }
}

/// The last line of the report, with the totals.
pub open spec fn totals_line_text(total_files: nat, total_lines: nat) -> Seq<char> {
    "TOTAL: "@ + decimal(total_files) + " fichiers, "@ + decimal(total_lines) + " lignes\n"@
}

/// The report: a title, one line for each part, and the totals.
pub open spec fn summary_text(result: SnapshotResultView) -> Seq<char> {
    "==== Résumé du snapshot ====\n"@ + part_lines_text(result.parts) + totals_line_text(
        result.total_files,
        result.total_lines,
    )
}

fn append_part_line(text: &mut String, part: &PartSummary)
    ensures
        final(text)@ == old(text)@ + part_line_text(part@),
{
    let ghost before = text@;
    text.append("Part ");
    text.append(decimal_string(part.part_index).as_str());
    text.append(": ");
    text.append(decimal_string(part.file_count).as_str());
    text.append(" fichiers, ");
    text.append(decimal_string(part.line_count).as_str());
    text.append(" lignes -> ");
    text.append(last_component(part.filename.as_str()).as_str());
    text.append("\n");
    assert(text@ =~= before + part_line_text(part@));
}

/// Renders the report of a run.
pub fn render_summary(result: &SnapshotResult) -> (text: String)
    ensures
        text@ == summary_text(result@),
{
    let mut text = String::from_str("==== Résumé du snapshot ====\n");
    let ghost title = text@;
    let ghost parts = part_views(result.parts@);
    let mut i: usize = 0;
    while i < result.parts.len()
        invariant
            i <= result.parts@.len(),
            parts == part_views(result.parts@),
            text@ == title + part_lines_text(parts.subrange(0, i as int)),
        decreases result.parts@.len() - i,
    {
        proof {
            assert(parts.subrange(0, i + 1).drop_last() =~= parts.subrange(0, i as int));
            assert(parts.subrange(0, i + 1).last() == result.parts@[i as int]@);
        }
        append_part_line(&mut text, &result.parts[i]);
        assert(text@ =~= title + part_lines_text(parts.subrange(0, i + 1)));
        i = i + 1;
    }
    assert(parts.subrange(0, i as int) =~= parts);
    let ghost body = text@;
    text.append("TOTAL: ");
    text.append(decimal_string(result.total_files).as_str());
    text.append(" fichiers, ");
    text.append(decimal_string(result.total_lines).as_str());
    text.append(" lignes\n");
    assert(text@ =~= body + totals_line_text(result@.total_files, result@.total_lines));
    assert(text@ =~= summary_text(result@));
    text
}

} // verus!
