//! Counting line terminators, in bytes and in text, all at once or piece by
//! piece.

use vstd::prelude::*;
use vstd::utf8::{
    char_is_scalar, char_u32_cast, encode_scalar, encode_utf8, has_width_1_encoding,
    has_width_2_encoding, has_width_3_encoding, last_continuation_byte, leading_byte_width_1,
    leading_byte_width_2, leading_byte_width_3, leading_byte_width_4,
    second_last_continuation_byte, third_last_continuation_byte,
};

verus! {

/// Number of line terminators (bytes of value 10) in `bytes`.
pub open spec fn newline_count(bytes: Seq<u8>) -> nat
    decreases bytes.len(),
{
    if bytes.len() == 0 {
        0
    } else {
        newline_count(bytes.drop_last()) + if bytes.last() == 10u8 {
            1nat
        } else {
            0nat
        }
    }
}

/// Counting does not depend on how the bytes are cut into pieces: two
/// pieces, laid end to end, hold the line terminators of both.
pub proof fn lemma_newlines_of_joined(a: Seq<u8>, b: Seq<u8>)
    ensures
        newline_count(a + b) == newline_count(a) + newline_count(b),
    decreases b.len(),
{
    if b.len() == 0 {
        assert(a + b =~= a);
    } else {
        assert((a + b).drop_last() =~= a + b.drop_last());
        lemma_newlines_of_joined(a, b.drop_last());
    }
}

/// There are at most as many line terminators as bytes.
pub proof fn lemma_newlines_at_most_len(bytes: Seq<u8>)
    ensures
        newline_count(bytes) <= bytes.len(),
    decreases bytes.len(),
{
    if bytes.len() > 0 {
        lemma_newlines_at_most_len(bytes.drop_last());
    }
}

/// Counts the line terminators in `bytes`.
pub(crate) fn count_newlines_in(bytes: &[u8]) -> (n: usize)
    ensures
        n == newline_count(bytes@),
{
    let mut n: usize = 0;
    let mut i: usize = 0;
    while i < bytes.len()
        invariant
            i <= bytes@.len(),
            n <= i,
            n == newline_count(bytes@.subrange(0, i as int)),
        decreases bytes@.len() - i,
    {
        proof {
            assert(bytes@.subrange(0, i + 1).drop_last() =~= bytes@.subrange(0, i as int));
        }
        if bytes[i] == 10u8 {
            n = n + 1;
        }
        i = i + 1;
    }
    proof {
        assert(bytes@.subrange(0, i as int) =~= bytes@);
    }
    n
}

/// Number of line terminators (characters `\n`) in `text`.
pub open spec fn line_feeds(text: Seq<char>) -> nat
    decreases text.len(),
{
    if text.len() == 0 {
        0
    } else {
        line_feeds(text.drop_first()) + if text[0] == '\n' {
            1nat
        } else {
            0nat
        }
    }
}

/// Bytes of which none is a line terminator hold no line terminator.
proof fn lemma_no_terminator_among(bytes: Seq<u8>)
    requires
        forall|i: int| 0 <= i < bytes.len() ==> bytes[i] != 10u8,
    ensures
        newline_count(bytes) == 0,
    decreases bytes.len(),
{
    if bytes.len() > 0 {
        lemma_no_terminator_among(bytes.drop_last());
    }
}

/// The encoding of a character holds a line terminator when the character
/// is one, and then exactly one.
proof fn lemma_terminators_of_one_char(c: char)
    ensures
        newline_count(encode_scalar(c as u32)) == if c == '\n' {
            1nat
        } else {
            0nat
        },
{
    let s = c as u32;
    char_is_scalar(c);
    let bytes = encode_scalar(s);
    if has_width_1_encoding(s) {
        assert(leading_byte_width_1(s) == 10u8 <==> s == 10u32) by (bit_vector)
            requires
                has_width_1_encoding(s),
        ;
        if s == 10u32 {
            char_u32_cast(c, s);
            assert(bytes.drop_last() =~= Seq::<u8>::empty());
            assert(newline_count(bytes.drop_last()) == 0);
        } else {
            lemma_no_terminator_among(bytes);
        }
    } else if has_width_2_encoding(s) {
        assert(leading_byte_width_2(s) != 10u8 && last_continuation_byte(s) != 10u8)
            by (bit_vector);
        lemma_no_terminator_among(bytes);
    } else if has_width_3_encoding(s) {
        assert(leading_byte_width_3(s) != 10u8 && second_last_continuation_byte(s) != 10u8
            && last_continuation_byte(s) != 10u8) by (bit_vector);
        lemma_no_terminator_among(bytes);
    } else {
        assert(leading_byte_width_4(s) != 10u8 && third_last_continuation_byte(s) != 10u8
            && second_last_continuation_byte(s) != 10u8 && last_continuation_byte(s) != 10u8)
            by (bit_vector);
        lemma_no_terminator_among(bytes);
    }
}

/// A text has as many line terminators as its encoding has bytes of
/// value 10.
pub proof fn lemma_encoding_keeps_line_feeds(text: Seq<char>)
    ensures
        newline_count(encode_utf8(text)) == line_feeds(text),
    decreases text.len(),
{
    if text.len() > 0 {
        lemma_terminators_of_one_char(text[0]);
        lemma_encoding_keeps_line_feeds(text.drop_first());
        lemma_newlines_of_joined(encode_scalar(text[0] as u32), encode_utf8(text.drop_first()));
    }
}

/// The line terminators of two texts laid end to end are those of both.
pub proof fn lemma_line_feeds_of_joined(a: Seq<char>, b: Seq<char>)
    ensures
        line_feeds(a + b) == line_feeds(a) + line_feeds(b),
    decreases a.len(),
{
    if a.len() == 0 {
        assert(a + b =~= b);
    } else {
        assert((a + b).drop_first() =~= a.drop_first() + b);
        lemma_line_feeds_of_joined(a.drop_first(), b);
    }
}

/// Counts the lines of a file that is read piece by piece.
pub struct LineCounter {
    lines: usize,
    bytes: usize,
    seen: Ghost<Seq<u8>>,
}

impl LineCounter {
    /// All bytes taken so far, in order.
    pub closed spec fn seen(&self) -> Seq<u8> {
        self.seen@
    }

    /// The counters agree with the bytes taken so far.
    pub closed spec fn wf(&self) -> bool {
        &&& self.lines == newline_count(self.seen@)
        &&& self.bytes == self.seen@.len()
    }

    /// The counters have room for `len` more bytes.
    pub open spec fn accepts(&self, len: nat) -> bool {
        self.seen().len() + len <= usize::MAX
    }

    /// A counter that has taken nothing yet.
    pub fn new() -> (counter: LineCounter)
        ensures
            counter.wf(),
            counter.seen() == Seq::<u8>::empty(),
    {
        LineCounter { lines: 0, bytes: 0, seen: Ghost(Seq::empty()) }
    }

    /// Whether the counters have room for `len` more bytes.
    pub fn has_room(&self, len: usize) -> (room: bool)
        requires
            self.wf(),
        ensures
            room == self.accepts(len as nat),
    {
        len <= usize::MAX - self.bytes
    }

    /// Takes the next piece of the file.
    pub fn feed(&mut self, chunk: &[u8])
        requires
            old(self).wf(),
            old(self).accepts(chunk@.len()),
        ensures
            final(self).wf(),
            final(self).seen() == old(self).seen() + chunk@,
    {
        proof {
            lemma_newlines_of_joined(self.seen@, chunk@);
            lemma_newlines_at_most_len(self.seen@ + chunk@);
        }
        let found = count_newlines_in(chunk);
        self.lines = self.lines + found;
        self.bytes = self.bytes + chunk.len();
        self.seen = Ghost(self.seen@ + chunk@);
    }

    /// The number of line terminators in what was taken so far.
    pub fn lines(&self) -> (n: usize)
        requires
            self.wf(),
        ensures
            n == newline_count(self.seen()),
    {
        self.lines
    }
}

} // verus!
