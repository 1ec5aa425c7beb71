//! The bytes of a part, and why a block costs what it costs.
//!
//! A part is a run of blocks. A block is a header line with the file's
//! display path, the file's bytes as they are, and two line terminators.

use vstd::prelude::*;
use vstd::utf8::encode_utf8;
use crate::lines::{
    lemma_encoding_keeps_line_feeds, lemma_line_feeds_of_joined, lemma_newlines_of_joined,
    line_feeds, newline_count,
};
use crate::packing::{block_cost, lemma_total_of_pushed, total};
use crate::text::{block_header_text, block_trailer_text};

verus! {

/// One file as it goes into a part: the path shown in its header, and its
/// bytes.
pub struct BlockSource {
    pub display_path: Seq<char>,
    pub content: Seq<u8>,
}

/// The bytes of the block of one file: the header line, the file's bytes,
/// and the trailer.
pub open spec fn block_bytes(source: BlockSource) -> Seq<u8> {
    encode_utf8(block_header_text(source.display_path)) + source.content + encode_utf8(
        block_trailer_text(),
    )
}

/// The bytes of a part: the blocks of its files, in order.
pub open spec fn part_bytes(sources: Seq<BlockSource>) -> Seq<u8>
    decreases sources.len(),
{
    if sources.len() == 0 {
        Seq::empty()
    } else {
        part_bytes(sources.drop_last()) + block_bytes(sources.last())
    }
}

/// The block costs of the files, by the line terminators in their bytes.
pub open spec fn costs_of(sources: Seq<BlockSource>) -> Seq<nat> {
    Seq::new(sources.len(), |i: int| block_cost(newline_count(sources[i].content)))
}

/// A block holds as many line terminators as it costs: one for the header,
/// those of the file, and two for the trailer. This needs a display path
/// that holds no line terminator itself.
pub proof fn lemma_block_cost_counts_lines(source: BlockSource)
    requires
        line_feeds(source.display_path) == 0,
    ensures
        newline_count(block_bytes(source)) == block_cost(newline_count(source.content)),
{
    let header = block_header_text(source.display_path);
    let trailer = block_trailer_text();
    reveal_with_fuel(line_feeds, 4);
    assert(line_feeds("# "@) == 0) by {
        reveal_strlit("# ");
    }
    assert(line_feeds("\n"@) == 1) by {
        reveal_strlit("\n");
    }
    assert(line_feeds(trailer) == 2) by {
        reveal_strlit("\n\n");
    }
    lemma_line_feeds_of_joined("# "@, source.display_path);
    lemma_line_feeds_of_joined("# "@ + source.display_path, "\n"@);
    lemma_encoding_keeps_line_feeds(header);
    lemma_encoding_keeps_line_feeds(trailer);
    lemma_newlines_of_joined(encode_utf8(header), source.content);
    lemma_newlines_of_joined(encode_utf8(header) + source.content, encode_utf8(trailer));
}

/// The lines of a part are the costs of its blocks: a part holds as many
/// line terminators as the block costs of its files add up to, where no
/// display path holds a line terminator.
pub proof fn lemma_part_lines_are_its_cost(sources: Seq<BlockSource>)
    requires
        forall|i: int| 0 <= i < sources.len() ==> line_feeds((#[trigger] sources[i]).display_path) == 0,
    ensures
        newline_count(part_bytes(sources)) == total(costs_of(sources)),
    decreases sources.len(),
{
    if sources.len() == 0 {
        assert(costs_of(sources) =~= Seq::<nat>::empty());
    } else {
        let front = sources.drop_last();
        lemma_part_lines_are_its_cost(front);
        lemma_block_cost_counts_lines(sources.last());
        lemma_newlines_of_joined(part_bytes(front), block_bytes(sources.last()));
        assert(costs_of(sources) =~= costs_of(front).push(
            block_cost(newline_count(sources.last().content)),
        ));
        lemma_total_of_pushed(costs_of(front), block_cost(newline_count(sources.last().content)));
    }
}

} // verus!
