//! The stream that a session answers with, and its packets.

use vstd::prelude::*;

use crate::bytes::{lemma_decimal_word, lemma_seek, lemma_seek_is, seek, BACKSLASH, NEWLINE, SLASH};
use crate::line::types::{
    carried, data_bytes, escape, escaped, fields, fits, lemma_escape_concat, lemma_escape_one,
    lemma_fits, PktType, MAX_PACKET_SIZE, NUM_LENGTH,
};

verus! {

/// A line, which ends in a newline, reversed: the newline stays at the end.
pub open spec fn reversed_line(line: Seq<u8>) -> Seq<u8> {
    line.drop_last().reverse().push(NEWLINE)
}

/// The complete lines of a stream, each reversed.
pub open spec fn reversed(stream: Seq<u8>) -> Seq<u8>
    decreases stream.len(),
{
    let i = seek(stream, NEWLINE, 0);
    if 0 <= i < stream.len() {
        reversed_line(stream.take(i + 1)) + reversed(stream.skip(i + 1))
    } else {
        Seq::empty()
    }
}

/// What follows the last complete line of a stream.
pub open spec fn unfinished(stream: Seq<u8>) -> Seq<u8>
    decreases stream.len(),
{
    let i = seek(stream, NEWLINE, 0);
    if 0 <= i < stream.len() {
        unfinished(stream.skip(i + 1))
    } else {
        stream
    }
}

/// The text that an escaped text stands for: a byte with a backslash before it
/// is the byte alone. A slash with none before it has no place there.
pub open spec fn unescape(s: Seq<u8>) -> Option<Seq<u8>>
    decreases s.len(),
{
    if s.len() == 0 {
        Some(Seq::empty())
    } else if s[0] == BACKSLASH {
        if s.len() == 1 {
            Some(Seq::empty())
        } else {
            match unescape(s.skip(2)) {
                Some(t) => Some(seq![s[1]] + t),
                None => None,
            }
        }
    } else if s[0] == SLASH {
        None
    } else {
        match unescape(s.skip(1)) {
            Some(t) => Some(seq![s[0]] + t),
            None => None,
        }
    }
}

/// A part of the outgoing stream that goes into one packet.
pub struct Chunk {
    pub start: nat,
    pub text: Seq<u8>,
}

/// A packet that waits for its turn or for its acknowledgement: the position
/// in the outgoing stream that acknowledges it, and its bytes.
pub struct Queued {
    pub count: nat,
    pub bytes: Seq<u8>,
}

/// The chunks that `text`, which starts at `start`, is cut into.
pub open spec fn chunks(id: Seq<u8>, start: nat, text: Seq<u8>) -> Seq<Chunk>
    decreases text.len(),
{
    let n = carried(id, start, text);
    if 0 < n <= text.len() {
        seq![Chunk { start, text: text.take(n as int) }] + chunks(
            id,
            start + n,
            text.skip(n as int),
        )
    } else {
        Seq::empty()
    }
}

/// The chunks that carry the reversed lines of `stream`: each line starts a
/// packet of its own.
pub open spec fn line_chunks(id: Seq<u8>, start: nat, stream: Seq<u8>) -> Seq<Chunk>
    decreases stream.len(),
{
    let i = seek(stream, NEWLINE, 0);
    if 0 <= i < stream.len() {
        chunks(id, start, reversed_line(stream.take(i + 1))) + line_chunks(
            id,
            (start + i + 1) as nat,
            stream.skip(i + 1),
        )
    } else {
        Seq::empty()
    }
}

/// The packet that carries a chunk.
pub open spec fn queued(id: Seq<u8>, c: Chunk) -> Queued {
    Queued { count: c.start + c.text.len(), bytes: data_bytes(id, c.start, c.text) }
}

/// The packets that carry chunks, in order.
pub open spec fn packets(id: Seq<u8>, cs: Seq<Chunk>) -> Seq<Queued> {
    cs.map_values(|c: Chunk| queued(id, c))
}

/// What chunks carry, put together.
pub open spec fn joined(cs: Seq<Chunk>) -> Seq<u8>
    decreases cs.len(),
{
    if cs.len() == 0 {
        Seq::empty()
    } else {
        cs[0].text + joined(cs.skip(1))
    }
}

/// Whether chunks lie one after another from `start` on, none of them empty.
pub open spec fn consecutive(start: nat, cs: Seq<Chunk>) -> bool
    decreases cs.len(),
{
    cs.len() > 0 ==> {
        &&& cs[0].start == start
        &&& cs[0].text.len() > 0
        &&& consecutive(start + cs[0].text.len(), cs.skip(1))
    }
}

/// The fields before the text of a packet leave room for text.
pub proof fn lemma_header_is_short(id: Seq<u8>, start: nat)
    requires
        id.len() <= NUM_LENGTH,
        start <= u64::MAX,
    ensures
        fields(PktType::Data, id, start).len() <= 38,
        fields(PktType::Ack, id, start).len() <= 38,
{
    reveal_strlit("data");
    reveal_strlit("ack");
    lemma_decimal_word(start as u64);
}

/// A packet carries at least one byte, while there is one.
pub proof fn lemma_carries_some(id: Seq<u8>, start: nat, text: Seq<u8>)
    requires
        id.len() <= NUM_LENGTH,
        start <= u64::MAX,
        text.len() > 0,
    ensures
        0 < carried(id, start, text) <= text.len(),
{
    lemma_header_is_short(id, start);
    lemma_fits(MAX_PACKET_SIZE - fields(PktType::Data, id, start).len(), text);
}

/// The first complete line of a stream is as long as it is reversed.
pub proof fn lemma_first_line(stream: Seq<u8>)
    ensures
        0 <= seek(stream, NEWLINE, 0) <= stream.len(),
        seek(stream, NEWLINE, 0) < stream.len() ==> reversed_line(
            stream.take(seek(stream, NEWLINE, 0) + 1),
        ).len() == seek(stream, NEWLINE, 0) + 1,
{
    lemma_seek(stream, NEWLINE, 0);
}

/// Reversal loses nothing and adds nothing: the complete lines and what
/// follows them have together the length of the stream.
pub proof fn law_reversal_keeps_length(stream: Seq<u8>)
    ensures
        reversed(stream).len() + unfinished(stream).len() == stream.len(),
    decreases stream.len(),
{
    lemma_first_line(stream);
    let i = seek(stream, NEWLINE, 0);
    if i < stream.len() {
        law_reversal_keeps_length(stream.skip(i + 1));
    }
}

/// What follows the last complete line holds no newline.
pub proof fn law_unfinished_has_no_newline(stream: Seq<u8>)
    ensures
        !unfinished(stream).contains(NEWLINE),
    decreases stream.len(),
{
    lemma_seek(stream, NEWLINE, 0);
    let i = seek(stream, NEWLINE, 0);
    if i < stream.len() {
        law_unfinished_has_no_newline(stream.skip(i + 1));
    }
}

/// The pieces that a stream arrives in make no difference: the lines that
/// end in `a` are answered from `a`, and what it leaves unfinished is answered
/// together with what follows.
pub proof fn law_pieces_make_no_difference(a: Seq<u8>, b: Seq<u8>)
    ensures
        reversed(a + b) == reversed(a) + reversed(unfinished(a) + b),
        unfinished(a + b) == unfinished(unfinished(a) + b),
    decreases a.len(),
{
    lemma_seek(a, NEWLINE, 0);
    let i = seek(a, NEWLINE, 0);
    if i < a.len() {
        lemma_seek_is(a + b, NEWLINE, 0, i);
        assert((a + b).take(i + 1) =~= a.take(i + 1));
        assert((a + b).skip(i + 1) =~= a.skip(i + 1) + b);
        law_pieces_make_no_difference(a.skip(i + 1), b);
        assert(reversed(a + b) =~= reversed(a) + reversed(unfinished(a) + b));
    } else {
        assert(reversed(a) + reversed(unfinished(a) + b) =~= reversed(a + b));
    }
}

/// Cut into chunks, a text is all there, in order, with no gap.
pub proof fn law_chunks_carry_the_text(id: Seq<u8>, start: nat, text: Seq<u8>)
    requires
        id.len() <= NUM_LENGTH,
        start + text.len() <= u64::MAX,
    ensures
        joined(chunks(id, start, text)) == text,
        consecutive(start, chunks(id, start, text)),
    decreases text.len(),
{
    if text.len() > 0 {
        lemma_carries_some(id, start, text);
        let n = carried(id, start, text);
        let rest = chunks(id, start + n, text.skip(n as int));
        law_chunks_carry_the_text(id, start + n, text.skip(n as int));
        assert(chunks(id, start, text).skip(1) =~= rest);
        assert(text.take(n as int) + text.skip(n as int) =~= text);
    } else {
        assert(chunks(id, start, text) =~= Seq::<Chunk>::empty());
        assert(joined(chunks(id, start, text)) =~= text);
    }
}

/// Chunks that follow one another join to what they carry together.
proof fn lemma_joined_concat(start: nat, a: Seq<Chunk>, b: Seq<Chunk>)
    ensures
        joined(a + b) == joined(a) + joined(b),
        consecutive(start, a) && consecutive(start + joined(a).len(), b) ==> consecutive(
            start,
            a + b,
        ),
    decreases a.len(),
{
    if a.len() == 0 {
        assert(a + b =~= b);
        assert(joined(a) + joined(b) =~= joined(b));
    } else {
        lemma_joined_concat(start + a[0].text.len(), a.skip(1), b);
        assert((a + b).skip(1) =~= a.skip(1) + b);
        assert(joined(a + b) =~= joined(a) + joined(b));
    }
}

/// The packets that answer a stream carry its complete lines, reversed: all of
/// them, in order, each at its position in the outgoing stream.
pub proof fn law_packets_carry_the_reversed_lines(id: Seq<u8>, start: nat, stream: Seq<u8>)
    requires
        id.len() <= NUM_LENGTH,
        start + stream.len() <= u64::MAX,
    ensures
        joined(line_chunks(id, start, stream)) == reversed(stream),
        consecutive(start, line_chunks(id, start, stream)),
    decreases stream.len(),
{
    lemma_first_line(stream);
    let i = seek(stream, NEWLINE, 0);
    if i < stream.len() {
        let line = reversed_line(stream.take(i + 1));
        law_chunks_carry_the_text(id, start, line);
        law_packets_carry_the_reversed_lines(id, (start + i + 1) as nat, stream.skip(i + 1));
        lemma_joined_concat(
            start,
            chunks(id, start, line),
            line_chunks(id, (start + i + 1) as nat, stream.skip(i + 1)),
        );
    }
}

/// The packets of a stream are the same in whatever pieces it arrives.
pub proof fn law_packets_do_not_depend_on_pieces(
    id: Seq<u8>,
    start: nat,
    a: Seq<u8>,
    b: Seq<u8>,
)
    ensures
        line_chunks(id, start, a + b) == line_chunks(id, start, a) + line_chunks(
            id,
            start + reversed(a).len(),
            unfinished(a) + b,
        ),
    decreases a.len(),
{
    lemma_first_line(a);
    lemma_seek(a, NEWLINE, 0);
    let i = seek(a, NEWLINE, 0);
    if i < a.len() {
        lemma_seek_is(a + b, NEWLINE, 0, i);
        assert((a + b).take(i + 1) =~= a.take(i + 1));
        assert((a + b).skip(i + 1) =~= a.skip(i + 1) + b);
        law_packets_do_not_depend_on_pieces(id, (start + i + 1) as nat, a.skip(i + 1), b);
        assert(line_chunks(id, start, a + b) =~= line_chunks(id, start, a) + line_chunks(
            id,
            start + reversed(a).len(),
            unfinished(a) + b,
        ));
    } else {
        assert(line_chunks(id, start, a + b) =~= line_chunks(id, start, a) + line_chunks(
            id,
            start + reversed(a).len(),
            unfinished(a) + b,
        ));
    }
}

/// A stream without a newline is unfinished as a whole.
pub proof fn lemma_no_newline(stream: Seq<u8>)
    requires
        !stream.contains(NEWLINE),
    ensures
        unfinished(stream) == stream,
        reversed(stream) == Seq::<u8>::empty(),
        forall|id: Seq<u8>, start: nat| #[trigger]
            line_chunks(id, start, stream) == Seq::<Chunk>::empty(),
{
    lemma_seek(stream, NEWLINE, 0);
}

/// What has been added once `text` stands in a packet stays near `room`.
proof fn lemma_escaped_len(room: int, text: Seq<u8>)
    ensures
        fits(room, text) <= text.len(),
        room > 0 ==> escape(text.take(fits(room, text) as int)).len() <= room + 1,
        room <= 0 ==> escape(text.take(fits(room, text) as int)).len() == 0,
    decreases text.len(),
{
    lemma_fits(room, text);
    let n = fits(room, text) as int;
    if room > 0 && text.len() > 0 {
        let less = room - escaped(text[0]).len();
        lemma_escaped_len(less, text.skip(1));
        assert(text.take(n) =~= seq![text[0]] + text.skip(1).take(n - 1));
        lemma_escape_concat(seq![text[0]], text.skip(1).take(n - 1));
        lemma_escape_one(text[0]);
    } else {
        assert(text.take(n) =~= Seq::<u8>::empty());
    }
}

/// Whether a packet has the form that the protocol asks for: it starts and ends
/// with a slash, and is at most a thousand bytes long.
pub open spec fn proper(packet: Seq<u8>) -> bool {
    0 < packet.len() <= 1000 && packet[0] == SLASH && packet.last() == SLASH
}

/// What one data packet carries makes it a proper one.
pub proof fn law_data_packets_are_proper(id: Seq<u8>, start: nat, text: Seq<u8>)
    requires
        id.len() <= NUM_LENGTH,
        start <= u64::MAX,
    ensures
        carried(id, start, text) <= text.len(),
        proper(data_bytes(id, start, text.take(carried(id, start, text) as int))),
{
    lemma_header_is_short(id, start);
    lemma_escaped_len(MAX_PACKET_SIZE - fields(PktType::Data, id, start).len(), text);
}

/// All the packets that answer a stream are proper ones.
pub proof fn law_answers_are_proper(id: Seq<u8>, start: nat, stream: Seq<u8>)
    requires
        id.len() <= NUM_LENGTH,
        start + stream.len() <= u64::MAX,
    ensures
        forall|i: int|
            0 <= i < line_chunks(id, start, stream).len() ==> proper(
                queued(id, #[trigger] line_chunks(id, start, stream)[i]).bytes,
            ),
    decreases stream.len(),
{
    lemma_first_line(stream);
    let i = seek(stream, NEWLINE, 0);
    if i < stream.len() {
        let line = reversed_line(stream.take(i + 1));
        lemma_chunks_are_proper(id, start, line);
        law_answers_are_proper(id, (start + i + 1) as nat, stream.skip(i + 1));
        let a = chunks(id, start, line);
        let b = line_chunks(id, (start + i + 1) as nat, stream.skip(i + 1));
        assert forall|j: int| 0 <= j < line_chunks(id, start, stream).len() implies proper(
            queued(id, #[trigger] line_chunks(id, start, stream)[j]).bytes,
        ) by {
            assert(line_chunks(id, start, stream)[j] == if j < a.len() {
                a[j]
            } else {
                b[j - a.len()]
            });
        }
    }
}

/// All the packets that carry a text are proper ones.
proof fn lemma_chunks_are_proper(id: Seq<u8>, start: nat, text: Seq<u8>)
    requires
        id.len() <= NUM_LENGTH,
        start + text.len() <= u64::MAX,
    ensures
        forall|i: int|
            0 <= i < chunks(id, start, text).len() ==> proper(
                queued(id, #[trigger] chunks(id, start, text)[i]).bytes,
            ),
    decreases text.len(),
{
    let n = carried(id, start, text);
    if 0 < n <= text.len() {
        law_data_packets_are_proper(id, start, text);
        let rest = chunks(id, start + n, text.skip(n as int));
        lemma_chunks_are_proper(id, start + n, text.skip(n as int));
        assert forall|i: int| 0 <= i < chunks(id, start, text).len() implies proper(
            queued(id, #[trigger] chunks(id, start, text)[i]).bytes,
        ) by {
            if i > 0 {
                assert(chunks(id, start, text)[i] == rest[i - 1]);
            }
        }
    }
}

/// Unescaping gives back every text that was escaped.
pub proof fn law_unescape_undoes_escape(text: Seq<u8>)
    ensures
        unescape(escape(text)) == Some(text),
    decreases text.len(),
{
    if text.len() > 0 {
        let one = seq![text[0]];
        let rest = text.skip(1);
        assert(text =~= one + rest);
        lemma_escape_concat(one, rest);
        lemma_escape_one(text[0]);
        law_unescape_undoes_escape(rest);
        assert(escape(text).skip(escaped(text[0]).len() as int) =~= escape(rest));
    } else {
        assert(escape(text) =~= Seq::<u8>::empty());
        assert(text =~= Seq::<u8>::empty());
    }
}

/// Escaping a text makes it no shorter.
pub proof fn lemma_escape_grows(text: Seq<u8>)
    ensures
        escape(text).len() >= text.len(),
    decreases text.len(),
{
    if text.len() > 0 {
        lemma_escape_grows(text.drop_last());
    }
}

} // verus!
