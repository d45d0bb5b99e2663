//! What the packets and a session are, byte by byte and position by position.

use vstd::prelude::*;

use crate::bytes::{
    all_digits, decimal, law_decimal_reads_back, lemma_digits_are_utf8, lemma_seek, lemma_seek_is,
    number, numeral, seek, NEWLINE, SLASH,
};
use crate::line::lrl::{
    count_field, meaning, Data, DataResponse, Event, Meaning, Msg, Session,
};
use crate::line::router::{after_response, delivers, starts, Client};
use crate::line::stream::{
    chunks, consecutive, joined, law_packets_carry_the_reversed_lines,
    law_packets_do_not_depend_on_pieces, law_reversal_keeps_length, lemma_header_is_short,
    lemma_no_newline, line_chunks, packets, queued, reversed, reversed_line, unescape,
    unfinished, Chunk,
};
use crate::line::types::{
    ack_bytes, carried, close_bytes, data_bytes, escape, escaped, fields, fits,
    law_packets_are_recognized, lemma_escape_concat, lemma_escape_one, lemma_fits, outline,
    session_id, spelling, MsgBlock, Outline, Pkt, PktType, Response, BLOCK_SIZE, MAX_PACKET_SIZE,
};

verus! {

/// Each complete line comes back reversed, at its own place in the stream: the
/// line that stands from `p` to its newline at `q` is answered with its bytes
/// from the last to the first, and then the newline.
pub proof fn law_each_line_comes_back_reversed(
    id: Seq<u8>,
    start: nat,
    stream: Seq<u8>,
    p: int,
    q: int,
)
    requires
        id.len() <= 10,
        start + stream.len() <= u64::MAX,
        0 <= p <= q < stream.len(),
        stream[q] == 10,
        p == 0 || stream[p - 1] == 10,
        forall|k: int| p <= k < q ==> stream[k] != 10,
    ensures
        ({
            let out = joined(line_chunks(id, start, stream));
            &&& q < out.len() <= stream.len()
            &&& out[q] == 10
            &&& forall|i: int| 0 <= i < q - p ==> #[trigger] out[p + i] == stream[q - 1 - i]
        }),
{
    law_packets_carry_the_reversed_lines(id, start, stream);
    law_reversal_keeps_length(stream);
    lemma_line_in_place(stream, p, q);
}

/// A complete line in the reversed stream.
proof fn lemma_line_in_place(stream: Seq<u8>, p: int, q: int)
    requires
        0 <= p <= q < stream.len(),
        stream[q] == 10,
        p == 0 || stream[p - 1] == 10,
        forall|k: int| p <= k < q ==> stream[k] != 10,
    ensures
        q < reversed(stream).len(),
        reversed(stream)[q] == 10,
        forall|i: int|
            0 <= i < q - p ==> #[trigger] reversed(stream)[p + i] == stream[q - 1 - i],
    decreases stream.len(),
{
    lemma_seek(stream, NEWLINE, 0);
    let n = seek(stream, NEWLINE, 0);
    let first = stream.take(n + 1);
    let rest = stream.skip(n + 1);
    let out = reversed(stream);
    assert(out =~= reversed_line(first) + reversed(rest));
    if p == 0 {
        assert(q == n);
        assert forall|i: int| 0 <= i < q - p implies #[trigger] out[p + i] == stream[q - 1 - i] by {
            assert(out[i] == reversed_line(first)[i]);
        }
    } else {
        assert(n < p);
        assert(rest[q - n - 1] == stream[q]);
        assert(p - n - 1 == 0 || rest[p - n - 2] == stream[p - 1]);
        assert forall|k: int| p - n - 1 <= k < q - n - 1 implies rest[k] != 10 by {
            assert(rest[k] == stream[k + n + 1]);
        }
        lemma_line_in_place(rest, p - n - 1, q - n - 1);
        assert forall|i: int| 0 <= i < q - p implies #[trigger] out[p + i] == stream[q - 1 - i] by {
            assert(out[p + i] == reversed(rest)[p - n - 1 + i]);
            assert(rest[q - n - 1 - 1 - i] == stream[q - 1 - i]);
        }
        assert(out[q] == reversed(rest)[q - n - 1]);
    }
}

/// A single line of any length comes back with its bytes in the opposite order
/// before its newline.
pub proof fn law_a_line_comes_back_reversed(id: Seq<u8>, start: nat, line: Seq<u8>)
    requires
        id.len() <= 10,
        start + line.len() <= u64::MAX,
        line.len() > 0,
        line.last() == 10,
        forall|k: int| 0 <= k < line.len() - 1 ==> line[k] != 10,
    ensures
        ({
            let out = joined(line_chunks(id, start, line));
            let n = line.len() - 1;
            &&& out.len() == n + 1
            &&& out[n] == 10
            &&& forall|i: int| 0 <= i < n ==> #[trigger] out[i] == line[n - 1 - i]
        }),
{
    let n = line.len() - 1;
    law_each_line_comes_back_reversed(id, start, line, 0, n);
    let out = joined(line_chunks(id, start, line));
    assert forall|i: int| 0 <= i < n implies #[trigger] out[i] == line[n - 1 - i] by {
        assert(out[0 + i] == line[n - 1 - i]);
    }
}

/// What comes back is as long as the stream up to its last newline, and what
/// follows that newline is unfinished.
pub proof fn law_all_complete_lines_come_back(id: Seq<u8>, start: nat, stream: Seq<u8>)
    requires
        id.len() <= 10,
        start + stream.len() <= u64::MAX,
    ensures
        ({
            let n = joined(line_chunks(id, start, stream)).len() as int;
            &&& n <= stream.len()
            &&& n > 0 ==> stream[n - 1] == 10
            &&& forall|k: int| n <= k < stream.len() ==> stream[k] != 10
            &&& unfinished(stream) == stream.skip(n)
        }),
{
    law_packets_carry_the_reversed_lines(id, start, stream);
    law_reversal_keeps_length(stream);
    lemma_last_newline(stream);
}

/// Where the complete lines end.
proof fn lemma_last_newline(stream: Seq<u8>)
    ensures
        ({
            let n = reversed(stream).len() as int;
            &&& n <= stream.len()
            &&& n > 0 ==> stream[n - 1] == 10
            &&& forall|k: int| n <= k < stream.len() ==> stream[k] != 10
            &&& unfinished(stream) == stream.skip(n)
        }),
    decreases stream.len(),
{
    lemma_seek(stream, NEWLINE, 0);
    let i = seek(stream, NEWLINE, 0);
    let n = reversed(stream).len() as int;
    if i < stream.len() {
        let rest = stream.skip(i + 1);
        lemma_last_newline(rest);
        let m = reversed(rest).len() as int;
        assert(n == i + 1 + m);
        assert(rest.skip(m) =~= stream.skip(n));
        if m > 0 {
            assert(rest[m - 1] == stream[n - 1]);
        }
        assert forall|k: int| n <= k < stream.len() implies stream[k] != 10 by {
            assert(rest[k - i - 1] == stream[k]);
        }
    } else {
        assert(stream.skip(0) =~= stream);
    }
}

/// What chunks carry together is their texts, one after another.
pub proof fn law_joined_is_one_after_another(cs: Seq<Chunk>)
    ensures
        joined(cs) == cs.map_values(|c: Chunk| c.text).flatten(),
    decreases cs.len(),
{
    let texts = cs.map_values(|c: Chunk| c.text);
    if cs.len() > 0 {
        law_joined_is_one_after_another(cs.skip(1));
        assert(texts.drop_first() =~= cs.skip(1).map_values(|c: Chunk| c.text));
    }
}

/// Escaping puts a backslash before each slash and each backslash, and nothing
/// else: a text with none of them stays as it is, and texts are escaped part by
/// part.
pub proof fn law_escaping(a: Seq<u8>, b: Seq<u8>)
    ensures
        (forall|i: int| 0 <= i < a.len() ==> a[i] != 47 && a[i] != 92) ==> escape(a) == a,
        escape(a + b) == escape(a) + escape(b),
        escape(seq![47u8]) == seq![92u8, 47u8],
        escape(seq![92u8]) == seq![92u8, 92u8],
    decreases a.len(),
{
    lemma_escape_concat(a, b);
    lemma_escape_one(47);
    lemma_escape_one(92);
    if a.len() > 0 && (forall|i: int| 0 <= i < a.len() ==> a[i] != 47 && a[i] != 92) {
        assert forall|i: int| 0 <= i < a.drop_last().len() implies a.drop_last()[i] != 47
            && a.drop_last()[i] != 92 by {
            assert(a.drop_last()[i] == a[i]);
        }
        law_escaping(a.drop_last(), b);
        assert(escape(a) =~= a);
    } else if a.len() == 0 {
        assert(escape(a) =~= a);
    }
}

/// Unescaping drops each backslash that stands before a byte, and keeps the
/// byte; it finds nothing in a text with a slash that has none before it.
pub proof fn law_unescaping(s: Seq<u8>, c: u8)
    ensures
        (forall|i: int| 0 <= i < s.len() ==> s[i] != 47 && s[i] != 92) ==> unescape(s) == Some(s),
        unescape(seq![92u8, c] + s) == match unescape(s) {
            Some(t) => Some(seq![c] + t),
            None => None,
        },
        c != 47 && c != 92 ==> unescape(seq![c] + s) == match unescape(s) {
            Some(t) => Some(seq![c] + t),
            None => None,
        },
        unescape(seq![47u8] + s) is None,
        unescape(seq![92u8]) == Some(Seq::<u8>::empty()),
    decreases s.len(),
{
    assert((seq![92u8, c] + s).skip(2) =~= s);
    assert((seq![c] + s).skip(1) =~= s);
    if s.len() == 0 {
        assert(unescape(s) == Some(Seq::<u8>::empty()));
        assert(s =~= Seq::<u8>::empty());
    } else if forall|i: int| 0 <= i < s.len() ==> s[i] != 47 && s[i] != 92 {
        let rest = s.skip(1);
        assert forall|i: int| 0 <= i < rest.len() implies rest[i] != 47 && rest[i] != 92 by {
            assert(rest[i] == s[i + 1]);
        }
        law_unescaping(rest, c);
        assert(seq![s[0]] + rest =~= s);
    }
}

/// The packets that a session sends, byte by byte.
pub proof fn law_bytes_of_packets(id: Seq<u8>, count: nat, text: Seq<u8>)
    ensures
        data_bytes(id, count, text) == seq![47u8, 100, 97, 116, 97, 47] + id + seq![47u8]
            + decimal(count) + seq![47u8] + escape(text) + seq![47u8],
        ack_bytes(id, count) == seq![47u8, 97, 99, 107, 47] + id + seq![47u8] + decimal(count)
            + seq![47u8],
        close_bytes(id) == seq![47u8, 99, 108, 111, 115, 101, 47] + id + seq![47u8],
{
    reveal_strlit("data");
    reveal_strlit("ack");
    reveal_strlit("close");
    assert(data_bytes(id, count, text) =~= seq![47u8, 100, 97, 116, 97, 47] + id + seq![47u8]
        + decimal(count) + seq![47u8] + escape(text) + seq![47u8]);
    assert(ack_bytes(id, count) =~= seq![47u8, 97, 99, 107, 47] + id + seq![47u8] + decimal(count)
        + seq![47u8]);
    assert(close_bytes(id) =~= seq![47u8, 99, 108, 111, 115, 101, 47] + id + seq![47u8]);
}

/// What does not fit has no room.
proof fn lemma_full(room: int, text: Seq<u8>)
    ensures
        fits(room, text) <= text.len(),
        fits(room, text) < text.len() ==> escape(text.take(fits(room, text) as int)).len() >= room,
    decreases text.len(),
{
    lemma_fits(room, text);
    let n = fits(room, text) as int;
    if room > 0 && text.len() > 0 {
        let rest = text.skip(1);
        lemma_full(room - escaped(text[0]).len(), rest);
        assert(text.take(n) =~= seq![text[0]] + rest.take(n - 1));
        lemma_escape_concat(seq![text[0]], rest.take(n - 1));
        lemma_escape_one(text[0]);
    }
}

/// A packet that does not carry all that there is left to carry is full: it
/// has grown to nine hundred and ninety-eight bytes before its closing slash.
pub proof fn law_packets_are_filled(id: Seq<u8>, start: nat, text: Seq<u8>)
    requires
        id.len() <= 10,
        start <= u64::MAX,
    ensures
        carried(id, start, text) <= text.len(),
        text.len() > 0 ==> carried(id, start, text) > 0,
        carried(id, start, text) < text.len() ==> data_bytes(
            id,
            start,
            text.take(carried(id, start, text) as int),
        ).len() >= 999,
{
    lemma_header_is_short(id, start);
    let room = MAX_PACKET_SIZE - fields(PktType::Data, id, start).len();
    lemma_full(room, text);
    lemma_fits(room, text);
}

/// Of the packets that carry a line, all but the last are full.
pub proof fn law_only_the_last_packet_is_short(id: Seq<u8>, start: nat, text: Seq<u8>, i: int)
    requires
        id.len() <= 10,
        start + text.len() <= u64::MAX,
        0 <= i < chunks(id, start, text).len() - 1,
    ensures
        data_bytes(
            id,
            chunks(id, start, text)[i].start,
            chunks(id, start, text)[i].text,
        ).len() >= 999,
    decreases text.len(),
{
    law_packets_are_filled(id, start, text);
    let n = carried(id, start, text);
    let rest = chunks(id, start + n, text.skip(n as int));
    if i == 0 {
        if n == text.len() {
            law_packets_are_filled(id, start + n, text.skip(n as int));
            assert(rest.len() == 0);
        }
    } else {
        assert(chunks(id, start, text)[i] == rest[i - 1]);
        law_only_the_last_packet_is_short(id, start + n, text.skip(n as int), i - 1);
    }
}

/// What a packet is acknowledged by, and what its bytes are: the position at
/// which its text ends, and the data packet of that text.
pub proof fn law_packets_are_those_of_their_chunks(id: Seq<u8>, cs: Seq<Chunk>)
    ensures
        packets(id, cs).len() == cs.len(),
        forall|i: int|
            0 <= i < cs.len() ==> (#[trigger] packets(id, cs)[i]).count == cs[i].start
                + cs[i].text.len() && packets(id, cs)[i].bytes == data_bytes(
                id,
                cs[i].start,
                cs[i].text,
            ),
{
}

/// What becomes of text that has newly arrived: the lines that it completes are
/// queued behind what is queued already, and the rest is pending.
pub proof fn law_new_text_is_queued_by_lines(s: Session, text: Seq<u8>)
    requires
        s.id.len() <= 10,
        s.sent + s.pending.len() + text.len() <= u64::MAX,
    ensures
        ({
            let stream = s.pending + text;
            let cs = line_chunks(s.id, s.sent, stream);
            let n = joined(cs).len();
            let after = s.absorb(text);
            &&& after.id == s.id
            &&& after.unacked == s.unacked
            &&& after.received == s.received
            &&& after.sent == s.sent + n
            &&& after.pending == stream.skip(n as int)
            &&& after.queue == s.queue + packets(s.id, cs)
        }),
{
    let stream = s.pending + text;
    law_all_complete_lines_come_back(s.id, s.sent, stream);
    law_packets_carry_the_reversed_lines(s.id, s.sent, stream);
    law_reversal_keeps_length(stream);
}

/// What becomes of a data packet at position `count`:
/// - one that leaves a gap changes nothing, and is answered with how far the
///   stream has arrived;
/// - one that is no longer than what has arrived of it, or is not well
///   escaped, changes nothing and is not answered;
/// - of any other, what is new of its text is taken, and it is answered with
///   how far the stream has arrived then.
pub proof fn law_data_packets_are_taken(s: Session, count: nat, escaped: Seq<u8>)
    requires
        forall|i: int| 0 <= i < s.pending.len() ==> s.pending[i] != 10,
    ensures
        count > s.received ==> s.after_data(count, escaped) == s && s.data_reply(count, escaped)
            == Some(ack_bytes(s.id, s.received)),
        count <= s.received && count + escaped.len() <= s.received ==> s.after_data(count, escaped)
            == s && s.data_reply(count, escaped) is None,
        count <= s.received && unescape(escaped) is None ==> s.after_data(count, escaped) == s
            && s.data_reply(count, escaped) is None,
        count <= s.received < count + escaped.len() ==> match unescape(escaped) {
            None => true,
            Some(text) => if count + text.len() <= s.received {
                &&& s.after_data(count, escaped) == s
                &&& s.data_reply(count, escaped) == Some(ack_bytes(s.id, s.received))
            } else {
                &&& s.after_data(count, escaped) == (Session {
                    received: count + text.len(),
                    ..s.absorb(text.skip(s.received - count))
                })
                &&& s.data_reply(count, escaped) == Some(ack_bytes(s.id, count + text.len()))
            },
        },
{
    if let Some(text) = unescape(escaped) {
        if count + text.len() <= s.received {
            assert(s.pending + Seq::<u8>::empty() =~= s.pending);
            assert(!s.pending.contains(NEWLINE));
            lemma_no_newline(s.pending);
            assert(s.absorb(Seq::empty()).queue =~= s.queue);
        }
    }
}

/// How a session starts, what the other events do to it, and what they are
/// answered.
pub proof fn law_other_events(s: Session, pkt: Pkt, count: usize)
    ensures
        Session::fresh(s.id) == (Session {
            id: s.id,
            pending: Seq::empty(),
            queue: Seq::empty(),
            unacked: Map::empty(),
            received: 0,
            sent: 0,
        }),
        s.after(Event::Timeout(count)) == s,
        !s.ends(Event::Timeout(count)),
        s.unacked.contains_key(count) ==> s.reply(Event::Timeout(count)) == Some(
            (PktType::Data, s.unacked[count]),
        ),
        !s.unacked.contains_key(count) ==> s.reply(Event::Timeout(count)) is None,
        s.after(Event::Hangup) == s && s.reply(Event::Hangup) is None && s.ends(Event::Hangup),
        s.after(Event::Idle) == s && s.reply(Event::Idle) == Some(
            (PktType::Close, close_bytes(s.id)),
        ) && s.ends(Event::Idle),
        meaning(pkt) matches Ok(Meaning::Ack { count: n }) ==> {
            let e = Event::Packet(pkt);
            let k = n as usize;
            &&& s.after(e) == (Session { unacked: s.unacked.remove(k), ..s })
            &&& s.ends(e) <==> !s.unacked.contains_key(k) && k > s.sent
            &&& s.reply(e) == if !s.unacked.contains_key(k) && k > s.sent {
                Some((PktType::Close, close_bytes(s.id)))
            } else {
                None
            }
        },
        meaning(pkt) matches Ok(Meaning::Data { count: n, text }) ==> {
            let e = Event::Packet(pkt);
            &&& s.after(e) == s.after_data(n, text)
            &&& !s.ends(e)
            &&& s.reply(e) == match s.data_reply(n, text) {
                Some(bytes) => Some((PktType::Ack, bytes)),
                None => None,
            }
        },
        s.queue.len() > 0 ==> s.after_sending() == (Session {
            queue: s.queue.skip(1),
            unacked: s.unacked.insert(s.queue[0].count as usize, s.queue[0].bytes),
            ..s
        }),
{
}

/// How the type of a packet is spelled.
pub open spec fn letters(t: PktType) -> Seq<u8> {
    match t {
        PktType::Ack => seq![97u8, 99, 107],
        PktType::Close => seq![99u8, 108, 111, 115, 101],
        PktType::Connect => seq![99u8, 111, 110, 110, 101, 99, 116],
        PktType::Data => seq![100u8, 97, 116, 97],
    }
}

/// The names of the types, letter by letter.
proof fn lemma_letters(t: PktType)
    ensures
        spelling(t) == letters(t),
{
    reveal_strlit("ack");
    reveal_strlit("close");
    reveal_strlit("connect");
    reveal_strlit("data");
    assert(spelling(t) =~= letters(t));
}

/// What is recognized as a packet is one: it starts and ends with a slash, its
/// type is spelled out between the first slash and the second, its id stands
/// between the second and the third, and nothing follows where nothing should.
pub proof fn law_what_is_recognized_is_a_packet(bytes: Seq<u8>)
    ensures
        outline(bytes) matches Ok(o) ==> {
            &&& 2 <= o.id_start <= o.id_end < bytes.len()
            &&& bytes[0] == 47
            &&& bytes[bytes.len() - 1] == 47
            &&& bytes[o.id_start - 1] == 47
            &&& bytes[o.id_end] == 47
            &&& bytes.subrange(1, o.id_start - 1) == letters(o.ptype)
            &&& forall|k: int| o.id_start <= k < o.id_end ==> bytes[k] != 47
            &&& o.ptype is Close || o.ptype is Connect ==> o.id_end + 1 == bytes.len()
        },
{
    if bytes.len() > 0 {
        lemma_seek(bytes, SLASH, 1);
        let second = seek(bytes, SLASH, 1);
        if second < bytes.len() {
            lemma_seek(bytes, SLASH, second + 1);
        }
        lemma_letters(PktType::Ack);
        lemma_letters(PktType::Close);
        lemma_letters(PktType::Connect);
        lemma_letters(PktType::Data);
    }
}

/// What is a packet is recognized as what it is.
pub proof fn law_a_packet_is_recognized(t: PktType, id: Seq<u8>, rest: Seq<u8>)
    requires
        forall|k: int| 0 <= k < id.len() ==> id[k] != 47,
        rest.len() > 0 ==> rest.last() == 47 && (t is Ack || t is Data),
    ensures
        outline(seq![47u8] + letters(t) + seq![47u8] + id + seq![47u8] + rest) == Ok::<
            Outline,
            Seq<char>,
        >(
            Outline {
                ptype: t,
                id_start: letters(t).len() as int + 2,
                id_end: letters(t).len() as int + 2 + id.len() as int,
            },
        ),
{
    lemma_letters(t);
    assert(!id.contains(SLASH));
    law_packets_are_recognized(t, id, rest);
}

/// The position field of a packet: the digits up to the next slash.
pub proof fn law_position_fields(block: Seq<u8>, start: int, end: int)
    requires
        0 <= start <= end < block.len(),
        block[end] == 47,
        forall|k: int| start <= k < end ==> block[k] != 47,
    ensures
        all_digits(block.subrange(start, end)) && start < end && number(
            block.subrange(start, end),
        ) <= usize::MAX ==> count_field(block, start) == Ok::<(nat, int), Seq<char>>(
            (number(block.subrange(start, end)), end),
        ),
        count_field(block, start) matches Ok((n, e)) ==> e == end && numeral(
            block.subrange(start, end),
        ) == Some(n) && n <= usize::MAX,
{
    lemma_seek_is(block, SLASH, start, end);
    let field = block.subrange(start, end);
    if all_digits(field) && start < end {
        lemma_digits_are_utf8(field);
        assert(48 <= field[0] <= 57);
    }
}

/// What a packet says: its position where it has one, and the text of a data
/// packet, which stands between its position and its closing slash.
pub proof fn law_what_packets_say(pkt: Pkt)
    ensures
        pkt.ptype is Close ==> meaning(pkt) == Ok::<Meaning, Seq<char>>(Meaning::Close),
        pkt.ptype is Connect ==> meaning(pkt) == Ok::<Meaning, Seq<char>>(Meaning::Connect),
        pkt.ptype is Ack ==> (count_field(pkt.data@, pkt.id_end + 1) matches Ok((n, end))
            ==> meaning(pkt) is Ok == (end + 1 == pkt.length) && (meaning(pkt) is Ok ==> meaning(
            pkt,
        ) == Ok::<Meaning, Seq<char>>(Meaning::Ack { count: n }))),
        pkt.ptype is Data ==> (count_field(pkt.data@, pkt.id_end + 1) matches Ok((n, end))
            ==> meaning(pkt) is Ok == (end + 2 <= pkt.length) && (meaning(pkt) is Ok ==> meaning(
            pkt,
        ) == Ok::<Meaning, Seq<char>>(
            Meaning::Data { count: n, text: pkt.data@.subrange(end + 1, pkt.length - 1) },
        ))),
        pkt.ptype is Ack || pkt.ptype is Data ==> (count_field(pkt.data@, pkt.id_end + 1) is Err
            ==> meaning(pkt) is Err),
{
}

/// An acknowledgement says the position that is written in it.
pub proof fn law_ack_packet_reads_back(pkt: Pkt, id: Seq<u8>, count: usize)
    requires
        pkt.length <= BLOCK_SIZE,
        pkt.bytes() == seq![47u8, 97, 99, 107, 47] + id + seq![47u8] + decimal(count as nat)
            + seq![47u8],
        forall|k: int| 0 <= k < id.len() ==> id[k] != 47,
    ensures
        outline(pkt.bytes()) == Ok::<Outline, Seq<char>>(
            Outline { ptype: PktType::Ack, id_start: 5, id_end: 5 + id.len() as int },
        ),
        pkt.wf() ==> pkt.session() == id && meaning(pkt) == Ok::<Meaning, Seq<char>>(
            Meaning::Ack { count: count as nat },
        ),
{
    let b = pkt.bytes();
    let digits = decimal(count as nat);
    let n = id.len() as int;
    law_decimal_reads_back(count as nat);
    assert(b =~= seq![47u8] + letters(PktType::Ack) + seq![47u8] + id + seq![47u8] + (digits
        + seq![47u8]));
    law_a_packet_is_recognized(PktType::Ack, id, digits + seq![47u8]);
    if pkt.wf() {
        let block = pkt.data@;
        let start = 6 + n;
        let end = start + digits.len();
        assert(pkt.data.0@.len() == BLOCK_SIZE);
        assert(b.len() == pkt.length);
        assert(letters(PktType::Ack).len() == 3);
        assert(pkt.id_start == 5 && pkt.id_end == 5 + n);
        assert(b.subrange(5, 5 + n) =~= id);
        assert(pkt.session() =~= b.subrange(5, 5 + n));
        assert(b.subrange(start, end) =~= digits);
        assert(block.subrange(start, end) =~= b.subrange(start, end));
        assert forall|k: int| start <= k < end implies block[k] != 47 by {
            assert(block[k] == digits[k - start]);
        }
        assert(block[end] == b[end]);
        law_position_fields(block, start, end);
    }
}

/// What is kept of an id, and where packets and responses go: to the session
/// with that id, which a connect starts and a close ends.
pub proof fn law_routing<T, A>(
    clients: Map<Seq<u8>, Client<T, A>>,
    bytes: Seq<u8>,
    pkt: Pkt,
    r: Response,
)
    ensures
        bytes.len() <= 10 ==> session_id(bytes) == bytes,
        bytes.len() > 10 ==> session_id(bytes) == bytes.take(10),
        delivers(clients, pkt) <==> clients.contains_key(pkt.session()),
        starts(clients, pkt) <==> !clients.contains_key(pkt.session())
            && pkt.ptype is Connect,
        r.kind() is Close ==> after_response(clients, r) == clients.remove(r.session()),
        !(r.kind() is Close) ==> after_response(clients, r) == clients,
{
}

/// Why bytes are not recognized as a packet.
pub proof fn law_why_packets_are_refused(bytes: Seq<u8>, p: int, q: int)
    ensures
        bytes.len() == 0 ==> outline(bytes) == Err::<Outline, Seq<char>>("no data"@),
        bytes.len() > 0 && bytes[0] != 47 ==> outline(bytes) == Err::<Outline, Seq<char>>(
            "no initial /"@,
        ),
        bytes.len() > 0 && bytes[0] == 47 && bytes[bytes.len() - 1] != 47 ==> outline(bytes)
            == Err::<Outline, Seq<char>>("no final /"@),
        bytes.len() == 1 && bytes[0] == 47 ==> outline(bytes) == Err::<Outline, Seq<char>>(
            "no second /"@,
        ),
        bytes.len() > 1 && bytes[0] == 47 && bytes[bytes.len() - 1] == 47 && 0 < p < bytes.len()
            && bytes[p] == 47 && (forall|k: int| 0 < k < p ==> bytes[k] != 47) ==> {
            let name = bytes.subrange(1, p);
            let known = name == letters(PktType::Ack) || name == letters(PktType::Close) || name
                == letters(PktType::Connect) || name == letters(PktType::Data);
            let short = name == letters(PktType::Close) || name == letters(PktType::Connect);
            &&& !known ==> outline(bytes) == Err::<Outline, Seq<char>>("unrecognized MsgType"@)
            &&& known && p == bytes.len() - 1 ==> outline(bytes) == Err::<Outline, Seq<char>>(
                "no third /"@,
            )
            &&& short && p < q < bytes.len() - 1 && bytes[q] == 47 && (forall|k: int|
                p < k < q ==> bytes[k] != 47) ==> outline(bytes) == Err::<Outline, Seq<char>>(
                "too many fields"@,
            )
        },
{
    lemma_letters(PktType::Ack);
    lemma_letters(PktType::Close);
    lemma_letters(PktType::Connect);
    lemma_letters(PktType::Data);
    assert(letters(PktType::Ack).len() == 3 && letters(PktType::Data).len() == 4);
    assert(letters(PktType::Close)[0] == 99 && letters(PktType::Connect)[0] == 99);
    assert(letters(PktType::Ack)[0] == 97 && letters(PktType::Data)[0] == 100);
    if bytes.len() > 1 && 0 < p < bytes.len() && bytes[p] == 47 && (forall|k: int|
        0 < k < p ==> bytes[k] != 47) {
        lemma_seek_is(bytes, SLASH, 1, p);
        if p < q < bytes.len() && bytes[q] == 47 && (forall|k: int|
            p < k < q ==> bytes[k] != 47) {
            lemma_seek_is(bytes, SLASH, p + 1, q);
        }
    }
}

/// Why a packet says nothing.
pub proof fn law_why_packets_say_nothing(pkt: Pkt, end: int)
    requires
        pkt.id_end + 1 <= end < pkt.data@.len(),
        pkt.data@[end] == 47,
        forall|k: int| pkt.id_end + 1 <= k < end ==> pkt.data@[k] != 47,
        pkt.ptype is Ack || pkt.ptype is Data,
    ensures
        ({
            let field = pkt.data@.subrange(pkt.id_end + 1, end);
            let n = numeral(field);
            &&& !vstd::utf8::valid_utf8(field) ==> meaning(pkt) == Err::<Meaning, Seq<char>>(
                "count not valid UTF-8"@,
            )
            &&& vstd::utf8::valid_utf8(field) && (n is None || n->Some_0 > usize::MAX) ==> meaning(
                pkt,
            ) == Err::<Meaning, Seq<char>>("count unparseable"@)
            &&& vstd::utf8::valid_utf8(field) && n is Some && n->Some_0 <= usize::MAX ==> {
                &&& pkt.ptype is Ack && end + 1 == pkt.length ==> meaning(pkt) == Ok::<
                    Meaning,
                    Seq<char>,
                >(Meaning::Ack { count: n->Some_0 })
                &&& pkt.ptype is Ack && end + 1 != pkt.length ==> meaning(pkt) == Err::<
                    Meaning,
                    Seq<char>,
                >("ack packet has too many fields"@)
                &&& pkt.ptype is Data && end + 2 <= pkt.length ==> meaning(pkt) == Ok::<
                    Meaning,
                    Seq<char>,
                >(
                    Meaning::Data {
                        count: n->Some_0,
                        text: pkt.data@.subrange(end + 1, pkt.length - 1),
                    },
                )
                &&& pkt.ptype is Data && end + 2 > pkt.length ==> meaning(pkt) == Err::<
                    Meaning,
                    Seq<char>,
                >("data ends before it starts"@)
            }
        }),
{
    lemma_seek_is(pkt.data@, SLASH, pkt.id_end + 1, end);
}

/// The packets that answer a stream lie one after another in the outgoing
/// stream, from its position on, and none of them is empty.
pub proof fn law_packets_follow_one_another(id: Seq<u8>, start: nat, stream: Seq<u8>, i: int)
    requires
        id.len() <= 10,
        start + stream.len() <= u64::MAX,
        0 <= i < line_chunks(id, start, stream).len(),
    ensures
        ({
            let cs = line_chunks(id, start, stream);
            &&& cs[i].text.len() > 0
            &&& cs[0].start == start
            &&& i > 0 ==> cs[i].start == cs[i - 1].start + cs[i - 1].text.len()
        }),
{
    law_packets_carry_the_reversed_lines(id, start, stream);
    lemma_consecutive(start, line_chunks(id, start, stream), i);
}

/// Chunks that are consecutive, seen one by one.
proof fn lemma_consecutive(start: nat, cs: Seq<Chunk>, i: int)
    requires
        consecutive(start, cs),
        0 <= i < cs.len(),
    ensures
        cs[i].text.len() > 0,
        cs[0].start == start,
        i > 0 ==> cs[i].start == cs[i - 1].start + cs[i - 1].text.len(),
    decreases cs.len(),
{
    if i > 0 {
        let rest = cs.skip(1);
        lemma_consecutive(start + cs[0].text.len(), rest, i - 1);
        assert(rest[i - 1] == cs[i] && rest[0] == cs[1]);
        if i > 1 {
            assert(rest[i - 2] == cs[i - 1]);
        }
    }
}

/// A line of its own is a packet of its own: what is answered to lines that are
/// complete does not depend on those that come after.
pub proof fn law_lines_are_answered_apart(id: Seq<u8>, start: nat, a: Seq<u8>, b: Seq<u8>)
    requires
        id.len() <= 10,
        start + a.len() + b.len() <= u64::MAX,
        a.len() == 0 || a.last() == 10,
    ensures
        line_chunks(id, start, a + b) == line_chunks(id, start, a) + line_chunks(
            id,
            start + a.len(),
            b,
        ),
{
    law_packets_do_not_depend_on_pieces(id, start, a, b);
    law_all_complete_lines_come_back(id, start, a);
    law_packets_carry_the_reversed_lines(id, start, a);
    let n = joined(line_chunks(id, start, a)).len() as int;
    if a.len() > 0 && n < a.len() {
        assert(a[a.len() - 1] != 10);
    }
    assert(unfinished(a) + b =~= b);
}

/// What the values of a session's types stand for.
pub proof fn law_what_values_stand_for(pkt: Pkt, d: Data, r: DataResponse, m: Msg, b: MsgBlock)
    ensures
        pkt.bytes() == pkt.data.0@.take(pkt.length as int),
        pkt.session() == pkt.data.0@.subrange(pkt.id_start as int, pkt.id_end as int),
        d.text() == d.data.0@.subrange(d.text_start as int, d.length as int),
        r@.count == r.count && r@.bytes == r.response@,
        b@ == b.0@,
        m matches Msg::Ack { count } ==> m.says() == (Meaning::Ack { count: count as nat }),
        m is Close ==> m.says() is Close,
        m is Connect ==> m.says() is Connect,
        m matches Msg::Data(d) ==> m.says() == (Meaning::Data {
            count: d.count as nat,
            text: d.text(),
        }),
{
}

} // verus!
