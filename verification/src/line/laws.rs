//! What holds of a session as a whole.

use vstd::prelude::*;

use crate::bytes::{
    decimal, law_decimal_reads_back, lemma_digits_are_utf8, lemma_seek, lemma_seek_is, BACKSLASH,
    NEWLINE, SLASH,
};
use crate::line::lrl::{meaning, Event, Meaning, Session};
use crate::line::stream::{
    consecutive, joined, law_packets_carry_the_reversed_lines,
    law_packets_do_not_depend_on_pieces, law_pieces_make_no_difference, law_reversal_keeps_length,
    law_unescape_undoes_escape, law_unfinished_has_no_newline, lemma_escape_grows,
    lemma_no_newline, line_chunks, packets, reversed, unescape, unfinished, Chunk, Queued,
};
use crate::line::types::{
    ack_bytes, close_bytes, data_bytes, escape, law_packets_are_recognized, outline, spelling,
    Outline, Pkt, PktType, BLOCK_SIZE, NUM_LENGTH,
};

verus! {

/// A stream is answered the same in whatever pieces it arrives.
pub proof fn law_absorbing_in_pieces(s: Session, a: Seq<u8>, b: Seq<u8>)
    ensures
        s.absorb(a).absorb(b) == s.absorb(a + b),
{
    let stream = s.pending + a;
    law_pieces_make_no_difference(stream, b);
    law_packets_do_not_depend_on_pieces(s.id, s.sent, stream, b);
    law_reversal_keeps_length(stream);
    law_reversal_keeps_length(unfinished(stream) + b);
    assert(s.pending + (a + b) =~= stream + b);
    assert(s.absorb(a).absorb(b).queue =~= s.absorb(a + b).queue);
}

/// A session to which `texts` have come in data packets, one after another.
pub open spec fn fed(s: Session, texts: Seq<Seq<u8>>) -> Session
    decreases texts.len(),
{
    if texts.len() == 0 {
        s
    } else {
        let before = fed(s, texts.drop_last());
        before.after_data(before.received, escape(texts.last()))
    }
}

/// What texts say, one after another.
pub open spec fn whole(texts: Seq<Seq<u8>>) -> Seq<u8>
    decreases texts.len(),
{
    if texts.len() == 0 {
        Seq::empty()
    } else {
        whole(texts.drop_last()) + texts.last()
    }
}

/// A session has received all of the text that came to it, and queued packets
/// that carry the complete lines of that text, each reversed, in order.
pub proof fn law_session_reverses_what_it_is_fed(id: Seq<u8>, texts: Seq<Seq<u8>>)
    requires
        forall|i: int| 0 <= i < texts.len() ==> (#[trigger] texts[i]).len() > 0,
        id.len() <= NUM_LENGTH,
        whole(texts).len() <= u64::MAX,
    ensures
        ({
            let s = fed(Session::fresh(id), texts);
            let text = whole(texts);
            let cs = line_chunks(id, 0, text);
            &&& s.received == text.len()
            &&& s.pending == unfinished(text)
            &&& s.sent == reversed(text).len()
            &&& s.queue == packets(id, cs)
            &&& joined(cs) == reversed(text)
            &&& consecutive(0, cs)
        }),
    decreases texts.len(),
{
    let text = whole(texts);
    lemma_fed_absorbs(id, texts);
    let s = fed(Session::fresh(id), texts);
    assert(Session::fresh(id).pending + text =~= text);
    assert(s.queue =~= packets(id, line_chunks(id, 0, text)));
    law_reversal_keeps_length(text);
    law_packets_carry_the_reversed_lines(id, 0, text);
}

/// A session that is fed texts absorbs them as a whole.
proof fn lemma_fed_absorbs(id: Seq<u8>, texts: Seq<Seq<u8>>)
    requires
        forall|i: int| 0 <= i < texts.len() ==> (#[trigger] texts[i]).len() > 0,
    ensures
        fed(Session::fresh(id), texts) == (Session {
            received: whole(texts).len(),
            ..Session::fresh(id).absorb(whole(texts))
        }),
    decreases texts.len(),
{
    let fresh = Session::fresh(id);
    if texts.len() == 0 {
        assert(fresh.pending + whole(texts) =~= Seq::<u8>::empty());
        lemma_no_newline(fresh.pending + whole(texts));
        assert(fresh.absorb(whole(texts)).queue =~= fresh.queue);
    } else {
        let before = fed(fresh, texts.drop_last());
        assert forall|i: int| 0 <= i < texts.drop_last().len() implies (
        #[trigger] texts.drop_last()[i]).len() > 0 by {
            assert(texts.drop_last()[i] == texts[i]);
        }
        lemma_fed_absorbs(id, texts.drop_last());
        let last = texts.last();
        law_unescape_undoes_escape(last);
        lemma_escape_grows(last);
        assert(before.news(before.received, last) =~= last);
        law_absorbing_in_pieces(fresh, whole(texts.drop_last()), last);
    }
}

/// Text that is sent again adds only what has not arrived before.
pub proof fn law_resent_text_adds_what_is_new(s: Session, count: nat, text: Seq<u8>)
    requires
        count <= s.received < count + text.len(),
    ensures
        s.after_data(count, escape(text)) == (Session {
            received: count + text.len(),
            ..s.absorb(text.skip(s.received - count))
        }),
        s.data_reply(count, escape(text)) == Some(ack_bytes(s.id, count + text.len())),
{
    law_unescape_undoes_escape(text);
    lemma_escape_grows(text);
}

/// A data packet that comes a second time changes nothing.
pub proof fn law_repeated_data_changes_nothing(s: Session, count: nat, escaped: Seq<u8>)
    requires
        !s.pending.contains(NEWLINE),
    ensures
        s.after_data(count, escaped).after_data(count, escaped) == s.after_data(count, escaped),
{
    let once = s.after_data(count, escaped);
    if s.takes(count, escaped) {
        let text = unescape(escaped)->Some_0;
        let news = s.news(count, text);
        law_unfinished_has_no_newline(s.pending + news);
        assert(once.news(count, text) == Seq::<u8>::empty());
        assert(once.pending + Seq::<u8>::empty() =~= once.pending);
        lemma_no_newline(once.pending);
        assert(once.absorb(Seq::empty()).queue =~= once.queue);
    }
}

/// A data packet that leaves a gap changes nothing and is answered with how
/// far the stream has arrived.
pub proof fn law_gap_is_answered_with_what_arrived(s: Session, count: nat, escaped: Seq<u8>)
    requires
        count > s.received,
    ensures
        s.after_data(count, escaped) == s,
        s.data_reply(count, escaped) == Some(ack_bytes(s.id, s.received)),
{
}

/// What is acknowledged is not sent again, and acknowledging it once more
/// changes nothing.
pub proof fn law_acknowledged_is_not_sent_again(s: Session, count: usize)
    ensures
        s.after_ack(count).reply(Event::Timeout(count)) is None,
        s.after_ack(count).after_ack(count) == s.after_ack(count),
        forall|other: usize|
            other != count ==> #[trigger] s.after_ack(count).reply(Event::Timeout(other))
                == s.reply(Event::Timeout(other)),
{
    assert(s.after_ack(count).after_ack(count).unacked =~= s.after_ack(count).unacked);
}

/// A data packet that the library has made is recognized, and says to its
/// reader what was put into it.
pub proof fn law_data_packet_reads_back(pkt: Pkt, id: Seq<u8>, count: usize, text: Seq<u8>)
    requires
        pkt.length <= BLOCK_SIZE,
        pkt.bytes() == data_bytes(id, count as nat, text),
        !id.contains(SLASH),
    ensures
        outline(pkt.bytes()) == Ok::<Outline, Seq<char>>(
            Outline { ptype: PktType::Data, id_start: 6, id_end: (6 + id.len()) as int },
        ),
        pkt.wf() ==> {
            &&& pkt.session() == id
            &&& meaning(pkt) == Ok::<Meaning, Seq<char>>(
                Meaning::Data { count: count as nat, text: escape(text) },
            )
        },
        unescape(escape(text)) == Some(text),
{
    law_unescape_undoes_escape(text);
    reveal_strlit("data");
    let b = pkt.bytes();
    let n = id.len() as int;
    let digits = decimal(count as nat);
    law_packets_are_recognized(
        PktType::Data,
        id,
        digits + seq![SLASH] + escape(text) + seq![SLASH],
    );
    assert(b =~= seq![SLASH] + spelling(PktType::Data) + seq![SLASH] + id + seq![SLASH] + (digits
        + seq![SLASH] + escape(text) + seq![SLASH]));
    if pkt.wf() {
        lemma_data_packet_meaning(pkt, id, count, text);
    }
}

/// What a data packet says whose layout is known.
proof fn lemma_data_packet_meaning(pkt: Pkt, id: Seq<u8>, count: usize, text: Seq<u8>)
    requires
        pkt.length <= BLOCK_SIZE,
        pkt.bytes() == data_bytes(id, count as nat, text),
        pkt.ptype == PktType::Data,
        pkt.id_start == 6,
        pkt.id_end == 6 + id.len(),
    ensures
        pkt.session() == id,
        meaning(pkt) == Ok::<Meaning, Seq<char>>(
            Meaning::Data { count: count as nat, text: escape(text) },
        ),
{
    reveal_strlit("data");
    let b = pkt.bytes();
    let n = id.len() as int;
    let digits = decimal(count as nat);
    law_decimal_reads_back(count as nat);
    assert(pkt.data.0@.len() == BLOCK_SIZE);
    assert(b.len() == pkt.length);
    assert(spelling(PktType::Data).len() == 4);
    assert(b.subrange(6, 6 + n) =~= id);
    assert(pkt.session() =~= b.subrange(6, 6 + n));
    let start = 7 + n;
    let end = start + digits.len();
    let block = pkt.data@;
    assert(block.subrange(start, end) =~= b.subrange(start, end));
    assert(b.subrange(start, end) =~= digits);
    assert forall|j: int| start <= j < end implies block[j] != SLASH by {
        assert(block[j] == digits[j - start]);
    }
    assert(block[end] == b[end]);
    lemma_seek_is(block, SLASH, start, end);
    lemma_digits_are_utf8(digits);
    assert(block.subrange(end + 1, pkt.length - 1) =~= b.subrange(end + 1, pkt.length - 1));
    assert(b.subrange(end + 1, pkt.length - 1) =~= escape(text));
}

/// Whether an event acknowledges a position.
pub open spec fn acknowledges(e: Event, count: usize) -> bool {
    e matches Event::Packet(pkt) && meaning(pkt) == Ok::<Meaning, Seq<char>>(
        Meaning::Ack { count: count as nat },
    )
}

/// What a session holds is not lost: a packet that was sent stays ready to be
/// sent again, whatever comes, until its own acknowledgement does.
pub proof fn law_packets_wait_for_their_acknowledgement(s: Session, e: Event, count: usize)
    requires
        s.unacked.contains_key(count),
        !acknowledges(e, count),
    ensures
        s.after(e).unacked.contains_key(count),
        s.after(e).unacked[count] == s.unacked[count],
        s.after(e).reply(Event::Timeout(count)) == Some((PktType::Data, s.unacked[count])),
{
}

/// Whether the packets of a session lie in order within what has been put into
/// packets: those that wait to be sent one after another, and behind those that
/// have been sent; and nothing is lost of what has arrived.
pub open spec fn within(s: Session) -> bool {
    &&& s.balanced()
    &&& s.received <= usize::MAX
    &&& forall|i: int| 0 <= i < s.queue.len() ==> (#[trigger] s.queue[i]).count <= s.sent
    &&& forall|i: int, j: int|
        0 <= i < j < s.queue.len() ==> (#[trigger] s.queue[i]).count < (
        #[trigger] s.queue[j]).count
    &&& forall|count: usize| #[trigger] s.unacked.contains_key(count) ==> count <= s.sent
    &&& forall|count: usize, i: int|
        #[trigger] s.unacked.contains_key(count) && 0 <= i < s.queue.len() ==> count < (
        #[trigger] s.queue[i]).count
}

/// Whether an event holds a packet that was laid out, or none.
pub open spec fn laid_out(e: Event) -> bool {
    e matches Event::Packet(pkt) ==> pkt.id_end < pkt.length <= BLOCK_SIZE
}

/// Whether an event is one that a session can take: there is a position for
/// what arrives with it.
pub open spec fn in_bounds(s: Session, e: Event) -> bool {
    laid_out(e) && s.after(e).received <= usize::MAX
}

/// Chunks that lie one after another end one after another, the last of them
/// where they end together.
proof fn lemma_ends_increase(start: nat, cs: Seq<Chunk>)
    requires
        consecutive(start, cs),
    ensures
        forall|i: int|
            0 <= i < cs.len() ==> start < (#[trigger] cs[i]).start + cs[i].text.len() <= start
                + joined(cs).len(),
        forall|i: int, j: int|
            0 <= i < j < cs.len() ==> (#[trigger] cs[i]).start + cs[i].text.len() < (
            #[trigger] cs[j]).start + cs[j].text.len(),
    decreases cs.len(),
{
    if cs.len() > 0 {
        let rest = cs.skip(1);
        lemma_ends_increase(start + cs[0].text.len(), rest);
        assert forall|i: int| 0 <= i < cs.len() implies start < (#[trigger] cs[i]).start
            + cs[i].text.len() <= start + joined(cs).len() by {
            if i > 0 {
                assert(cs[i] == rest[i - 1]);
            }
        }
        assert forall|i: int, j: int| 0 <= i < j < cs.len() implies (#[trigger] cs[i]).start
            + cs[i].text.len() < (#[trigger] cs[j]).start + cs[j].text.len() by {
            assert(cs[j] == rest[j - 1]);
            if i > 0 {
                assert(cs[i] == rest[i - 1]);
            }
        }
    }
}

/// The packets that a text adds to a session are acknowledged by positions of
/// their own, above all that went before and not above what has been put into
/// packets.
pub proof fn law_packets_have_positions_of_their_own(s: Session, text: Seq<u8>)
    requires
        s.id.len() <= NUM_LENGTH,
        s.sent + s.pending.len() + text.len() <= u64::MAX,
    ensures
        ({
            let after = s.absorb(text);
            let n = s.queue.len() as int;
            &&& s.sent <= after.sent
            &&& after.queue.len() >= n
            &&& after.queue.take(n) == s.queue
            &&& forall|i: int|
                n <= i < after.queue.len() ==> s.sent < (#[trigger] after.queue[i]).count
                    <= after.sent
            &&& forall|i: int, j: int|
                n <= i < j < after.queue.len() ==> (#[trigger] after.queue[i]).count < (
                #[trigger] after.queue[j]).count
        }),
{
    let stream = s.pending + text;
    let cs = line_chunks(s.id, s.sent, stream);
    let after = s.absorb(text);
    let n = s.queue.len() as int;
    law_packets_carry_the_reversed_lines(s.id, s.sent, stream);
    law_reversal_keeps_length(stream);
    lemma_ends_increase(s.sent, cs);
    assert(after.queue.take(n) =~= s.queue);
    assert forall|i: int| n <= i < after.queue.len() implies s.sent < (
    #[trigger] after.queue[i]).count <= after.sent by {
        assert(after.queue[i] == packets(s.id, cs)[i - n]);
        assert(cs[i - n].start + cs[i - n].text.len() == after.queue[i].count);
    }
    assert forall|i: int, j: int| n <= i < j < after.queue.len() implies (
    #[trigger] after.queue[i]).count < (#[trigger] after.queue[j]).count by {
        assert(cs[i - n].start + cs[i - n].text.len() == after.queue[i].count);
        assert(cs[j - n].start + cs[j - n].text.len() == after.queue[j].count);
    }
}

/// The packets lie in order within what has been put into packets: at the
/// start, after every event, and when a packet is sent, which disturbs none of
/// those sent before. So an acknowledgement of a packet that was sent never
/// ends the session, even when it comes again.
pub proof fn law_packets_stay_within(s: Session, e: Event, count: usize)
    requires
        within(s),
        s.id.len() <= NUM_LENGTH,
        in_bounds(s, e),
    ensures
        within(Session::fresh(s.id)),
        within(s.after(e)),
        s.queue.len() > 0 ==> within(s.after_sending()),
        s.unacked.contains_key(count) ==> {
            &&& s.ack_is_due(count)
            &&& s.after_ack(count).ack_is_due(count)
            &&& s.queue.len() > 0 ==> s.after_sending().unacked.contains_key(count)
                && s.after_sending().unacked[count] == s.unacked[count]
        },
{
    if s.queue.len() > 0 {
        lemma_sending_stays_within(s);
    }
    if let Event::Packet(pkt) = e {
        if let Ok(Meaning::Data { count: at, text: escaped }) = meaning(pkt) {
            if s.takes(at, escaped) {
                lemma_absorbing_stays_within(s, s.news(at, unescape(escaped)->Some_0));
            }
        }
    }
}

/// The packets stay in order when one is sent.
proof fn lemma_sending_stays_within(s: Session)
    requires
        within(s),
        s.queue.len() > 0,
    ensures
        within(s.after_sending()),
        forall|count: usize| #[trigger]
            s.unacked.contains_key(count) ==> s.after_sending().unacked.contains_key(count)
                && s.after_sending().unacked[count] == s.unacked[count],
{
    let after = s.after_sending();
    let first = s.queue[0];
    assert(first.count <= s.sent);
    assert forall|i: int| 0 <= i < after.queue.len() implies (#[trigger] after.queue[i])
        == s.queue[i + 1] && first.count < s.queue[i + 1].count by {
    }
    assert forall|count: usize, i: int|
        #[trigger] after.unacked.contains_key(count) && 0 <= i < after.queue.len() implies count < (
    #[trigger] after.queue[i]).count by {
        assert(after.queue[i] == s.queue[i + 1]);
        if count != first.count {
            assert(s.unacked.contains_key(count));
        }
    }
    assert forall|i: int, j: int| 0 <= i < j < after.queue.len() implies (
    #[trigger] after.queue[i]).count < (#[trigger] after.queue[j]).count by {
        assert(after.queue[i] == s.queue[i + 1]);
        assert(after.queue[j] == s.queue[j + 1]);
    }
    assert forall|count: usize| #[trigger] s.unacked.contains_key(count) implies count
        != first.count by {
    }
}

/// The packets stay in order when a text adds some.
proof fn lemma_absorbing_stays_within(s: Session, news: Seq<u8>)
    requires
        within(s),
        s.id.len() <= NUM_LENGTH,
        s.received + news.len() <= usize::MAX,
    ensures
        within(
            Session { received: s.received + news.len(), ..s.absorb(news) },
        ),
{
    law_packets_have_positions_of_their_own(s, news);
    law_reversal_keeps_length(s.pending + news);
    let after = Session { received: s.received + news.len(), ..s.absorb(news) };
    let n = s.queue.len() as int;
    assert forall|i: int| 0 <= i < n implies #[trigger] after.queue[i] == s.queue[i] by {
        assert(after.queue[i] == after.queue.take(n)[i]);
    }
    assert forall|i: int| 0 <= i < after.queue.len() implies (#[trigger] after.queue[i]).count
        <= after.sent by {
        if i < n {
            assert(s.queue[i].count <= s.sent);
        }
    }
    assert forall|i: int, j: int| 0 <= i < j < after.queue.len() implies (
    #[trigger] after.queue[i]).count < (#[trigger] after.queue[j]).count by {
        if i < n {
            assert(s.queue[i].count <= s.sent);
            if j < n {
                assert(s.queue[i].count < s.queue[j].count);
            }
        }
    }
    assert forall|count: usize, i: int|
        #[trigger] after.unacked.contains_key(count) && 0 <= i < after.queue.len() implies count < (
    #[trigger] after.queue[i]).count by {
        assert(s.unacked.contains_key(count));
        if i < n {
            assert(count < s.queue[i].count);
        }
    }
}

/// Unescaping a text makes it no longer.
proof fn lemma_unescape_shrinks(s: Seq<u8>)
    ensures
        unescape(s) matches Some(t) ==> t.len() <= s.len(),
    decreases s.len(),
{
    if s.len() > 1 && s[0] == BACKSLASH {
        lemma_unescape_shrinks(s.skip(2));
    } else if s.len() > 0 {
        lemma_unescape_shrinks(s.skip(1));
    }
}

/// Part of a stream, which a data packet carries.
pub struct Span {
    pub start: nat,
    pub end: nat,
}

/// A session to which parts of a stream have come, in any order.
pub open spec fn delivered(s: Session, stream: Seq<u8>, parts: Seq<Span>) -> Session
    decreases parts.len(),
{
    if parts.len() == 0 {
        s
    } else {
        let before = delivered(s, stream, parts.drop_last());
        let p = parts.last();
        before.after_data(p.start, escape(stream.subrange(p.start as int, p.end as int)))
    }
}

/// A session that has received the beginning of a stream, and nothing else.
pub open spec fn heard(id: Seq<u8>, beginning: Seq<u8>) -> Session {
    Session { received: beginning.len(), ..Session::fresh(id).absorb(beginning) }
}

/// One more part of a stream takes a session on from one beginning of it to
/// another that is no shorter.
pub proof fn law_parts_take_a_session_on(id: Seq<u8>, stream: Seq<u8>, r: nat, p: Span)
    requires
        r <= stream.len(),
        p.start <= p.end <= stream.len(),
    ensures
        ({
            let text = stream.subrange(p.start as int, p.end as int);
            let after = heard(id, stream.take(r as int)).after_data(p.start, escape(text));
            let end = if p.start <= r < p.end {
                p.end
            } else {
                r
            };
            after == heard(id, stream.take(end as int))
        }),
{
    let text = stream.subrange(p.start as int, p.end as int);
    let s = heard(id, stream.take(r as int));
    let fresh = Session::fresh(id);
    law_unescape_undoes_escape(text);
    lemma_escape_grows(text);
    if p.start <= r < p.end {
        let news = s.news(p.start, text);
        assert(news =~= stream.subrange(r as int, p.end as int));
        law_absorbing_in_pieces(fresh, stream.take(r as int), news);
        assert(stream.take(r as int) + news =~= stream.take(p.end as int));
    } else if s.takes(p.start, escape(text)) {
        law_unfinished_has_no_newline(fresh.pending + stream.take(r as int));
        lemma_nothing_new(s);
    }
}

/// A session that holds no newline is not changed by nothing.
proof fn lemma_nothing_new(s: Session)
    requires
        !s.pending.contains(NEWLINE),
    ensures
        s.absorb(Seq::empty()) == s,
{
    assert(s.pending + Seq::<u8>::empty() =~= s.pending);
    lemma_no_newline(s.pending);
    assert(s.absorb(Seq::empty()).queue =~= s.queue);
}

/// Whatever parts of a stream come, in whatever order and however often, the
/// session has received a beginning of the stream, and has queued packets that
/// carry the complete lines of that beginning, each reversed, in order, once,
/// and nothing else.
pub proof fn law_any_delivery_gives_a_beginning(id: Seq<u8>, stream: Seq<u8>, parts: Seq<Span>)
    requires
        forall|i: int|
            0 <= i < parts.len() ==> (#[trigger] parts[i]).start <= parts[i].end <= stream.len(),
        id.len() <= NUM_LENGTH,
        stream.len() <= u64::MAX,
    ensures
        ({
            let s = delivered(Session::fresh(id), stream, parts);
            let beginning = stream.take(s.received as int);
            let cs = line_chunks(id, 0, beginning);
            &&& s.received <= stream.len()
            &&& s == heard(id, beginning)
            &&& s.pending == unfinished(beginning)
            &&& s.queue == packets(id, cs)
            &&& joined(cs) == reversed(beginning)
            &&& consecutive(0, cs)
        }),
    decreases parts.len(),
{
    let fresh = Session::fresh(id);
    if parts.len() == 0 {
        assert(stream.take(0) =~= Seq::<u8>::empty());
        assert(fresh.pending + Seq::<u8>::empty() =~= Seq::<u8>::empty());
        lemma_no_newline(Seq::<u8>::empty());
        assert(fresh.absorb(Seq::empty()).queue =~= fresh.queue);
    } else {
        assert forall|i: int| 0 <= i < parts.drop_last().len() implies (
        #[trigger] parts.drop_last()[i]).start <= parts.drop_last()[i].end <= stream.len() by {
            assert(parts.drop_last()[i] == parts[i]);
        }
        law_any_delivery_gives_a_beginning(id, stream, parts.drop_last());
        let before = delivered(fresh, stream, parts.drop_last());
        assert(parts.last() == parts[parts.len() - 1]);
        law_parts_take_a_session_on(id, stream, before.received, parts.last());
    }
    let s = delivered(fresh, stream, parts);
    let beginning = stream.take(s.received as int);
    assert(fresh.pending + beginning =~= beginning);
    assert(s.queue =~= packets(id, line_chunks(id, 0, beginning)));
    law_packets_carry_the_reversed_lines(id, 0, beginning);
}

/// What has arrived of the stream never grows less, whatever comes.
pub proof fn law_received_never_falls(s: Session, e: Event)
    ensures
        s.after(e).received >= s.received,
{
}

/// What each event is answered: a connect with an acknowledgement of nothing; a
/// close, an acknowledgement of what was not sent, and a silence with a close,
/// which ends the session; a packet that says nothing with nothing, and the
/// session goes on as it was.
pub proof fn law_every_event_is_answered(s: Session, pkt: Pkt)
    ensures
        s.reply(Event::Idle) == Some((PktType::Close, close_bytes(s.id))) && s.ends(Event::Idle),
        ({
            let e = Event::Packet(pkt);
            match meaning(pkt) {
                Err(_) => s.reply(e) is None && !s.ends(e) && s.after(e) == s,
                Ok(Meaning::Connect) => {
                    &&& s.reply(e) == Some((PktType::Ack, ack_bytes(s.id, 0)))
                    &&& !s.ends(e)
                    &&& s.after(e) == s
                },
                Ok(Meaning::Close) => {
                    &&& s.reply(e) == Some((PktType::Close, close_bytes(s.id)))
                    &&& s.ends(e)
                },
                Ok(Meaning::Ack { count }) => {
                    &&& count > s.sent && !s.unacked.contains_key(count as usize) ==> s.reply(e)
                        == Some((PktType::Close, close_bytes(s.id))) && s.ends(e)
                    &&& count <= s.sent || s.unacked.contains_key(count as usize) ==> s.reply(e)
                        is None && !s.ends(e)
                },
                Ok(Meaning::Data { .. }) => !s.ends(e),
            }
        }),
{
}

/// A session once all that waited to be sent has been sent.
pub open spec fn flushed(s: Session) -> Session
    decreases s.queue.len(),
{
    if s.queue.len() == 0 {
        s
    } else {
        flushed(s.after_sending())
    }
}

/// All that a session sends while events come: what waits to be sent goes out
/// before each, and the end of the session is the end of it.
pub open spec fn messages(s: Session, events: Seq<Event>) -> Seq<(PktType, Seq<u8>)>
    decreases events.len(),
{
    let waiting = s.queue.map_values(|q: Queued| (PktType::Data, q.bytes));
    if events.len() == 0 {
        waiting
    } else {
        let e = events[0];
        let ready = flushed(s);
        let answer = match ready.reply(e) {
            Some(m) => seq![m],
            None => Seq::empty(),
        };
        if ready.ends(e) {
            waiting + answer
        } else {
            waiting + answer + messages(ready.after(e), events.skip(1))
        }
    }
}

/// The event that ends a session, if one does.
pub open spec fn ended_by(s: Session, events: Seq<Event>) -> Option<Event>
    decreases events.len(),
{
    if events.len() == 0 {
        None
    } else if flushed(s).ends(events[0]) {
        Some(events[0])
    } else {
        ended_by(flushed(s).after(events[0]), events.skip(1))
    }
}

/// Sending keeps the id, and what has arrived.
proof fn lemma_flushed_keeps_id(s: Session)
    ensures
        flushed(s).id == s.id,
        flushed(s).received == s.received,
        flushed(s).queue.len() == 0,
    decreases s.queue.len(),
{
    if s.queue.len() > 0 {
        lemma_flushed_keeps_id(s.after_sending());
    }
}

/// A session sends one close, as its last message, where the client closes it,
/// breaks the rules or falls silent; where it goes on, or where nobody can hear
/// it any more, it sends none.
pub proof fn law_a_close_is_the_last_message(s: Session, events: Seq<Event>)
    ensures
        ({
            let ms = messages(s, events);
            let closed = ended_by(s, events) is Some && !(ended_by(s, events)
                == Some(Event::Hangup));
            &&& closed ==> ms.len() > 0 && ms.last() == (PktType::Close, close_bytes(s.id))
            &&& forall|i: int|
                0 <= i < ms.len() && (#[trigger] ms[i]).0 == PktType::Close ==> closed && i
                    == ms.len() - 1
        }),
    decreases events.len(),
{
    let waiting = s.queue.map_values(|q: Queued| (PktType::Data, q.bytes));
    let ms = messages(s, events);
    lemma_flushed_keeps_id(s);
    if events.len() > 0 {
        let e = events[0];
        let ready = flushed(s);
        let answer = match ready.reply(e) {
            Some(m) => seq![m],
            None => Seq::empty(),
        };
        if !ready.ends(e) {
            let next = ready.after(e);
            let rest = messages(next, events.skip(1));
            law_a_close_is_the_last_message(next, events.skip(1));
            let n = (waiting + answer).len() as int;
            assert(ms =~= waiting + answer + rest);
            assert forall|i: int|
                0 <= i < ms.len() && (#[trigger] ms[i]).0 == PktType::Close implies n <= i
                && ms[i] == rest[i - n] by {
                if waiting.len() <= i < n {
                    assert(ms[i] == answer[0]);
                } else if i < waiting.len() {
                    assert(ms[i] == waiting[i]);
                }
            }
        } else {
            assert(ms =~= waiting + answer);
        }
    }
}

/// A session after events, each of which finds all sent that waited.
pub open spec fn after_all(s: Session, events: Seq<Event>) -> Session
    decreases events.len(),
{
    if events.len() == 0 {
        s
    } else {
        after_all(flushed(s).after(events[0]), events.skip(1))
    }
}

/// Whether each of the events is one that the session can take.
pub open spec fn all_in_bounds(s: Session, events: Seq<Event>) -> bool
    decreases events.len(),
{
    events.len() > 0 ==> in_bounds(flushed(s), events[0]) && all_in_bounds(
        flushed(s).after(events[0]),
        events.skip(1),
    )
}

/// Sending what waits keeps the order, and what was sent before.
proof fn lemma_flushing_stays_within(s: Session, count: usize)
    requires
        within(s),
        s.unacked.contains_key(count),
    ensures
        within(flushed(s)),
        flushed(s).unacked.contains_key(count),
        flushed(s).unacked[count] == s.unacked[count],
    decreases s.queue.len(),
{
    if s.queue.len() > 0 {
        lemma_sending_stays_within(s);
        lemma_flushing_stays_within(s.after_sending(), count);
    }
}

/// A packet that was sent is sent again each time that its time runs out,
/// whatever else comes in between, until its own acknowledgement comes.
pub proof fn law_packets_are_sent_again_until_acknowledged(
    s: Session,
    events: Seq<Event>,
    count: usize,
)
    requires
        within(s),
        s.id.len() <= NUM_LENGTH,
        s.unacked.contains_key(count),
        all_in_bounds(s, events),
        forall|i: int| 0 <= i < events.len() ==> !acknowledges(#[trigger] events[i], count),
    ensures
        after_all(s, events).reply(Event::Timeout(count)) == Some(
            (PktType::Data, s.unacked[count]),
        ),
    decreases events.len(),
{
    if events.len() > 0 {
        let ready = flushed(s);
        lemma_flushed_keeps_id(s);
        lemma_flushing_stays_within(s, count);
        assert(!acknowledges(events[0], count));
        law_packets_wait_for_their_acknowledgement(ready, events[0], count);
        law_packets_stay_within(ready, events[0], count);
        assert forall|i: int| 0 <= i < events.skip(1).len() implies !acknowledges(
            #[trigger] events.skip(1)[i],
            count,
        ) by {
            assert(events.skip(1)[i] == events[i + 1]);
        }
        law_packets_are_sent_again_until_acknowledged(
            ready.after(events[0]),
            events.skip(1),
            count,
        );
    }
}

/// Nothing is lost: what has arrived is answered or pending, at the start,
/// after every event, and when a packet is sent.
pub proof fn law_nothing_is_lost(s: Session, e: Event)
    requires
        s.balanced(),
    ensures
        Session::fresh(s.id).balanced(),
        s.after(e).balanced(),
        s.after_sending().balanced(),
{
    if let Event::Packet(pkt) = e {
        if let Ok(Meaning::Data { count, text: escaped }) = meaning(pkt) {
            if s.takes(count, escaped) {
                law_reversal_keeps_length(s.pending + s.news(count, unescape(escaped)->Some_0));
            }
        }
    }
}

/// A packet brings no more than the block that it came in.
pub proof fn law_a_packet_brings_at_most_a_block(s: Session, e: Event)
    requires
        laid_out(e),
    ensures
        s.after(e).received <= s.received + BLOCK_SIZE,
        s.has_room(BLOCK_SIZE as nat) ==> in_bounds(s, e),
{
    if let Event::Packet(pkt) = e {
        if let Ok(Meaning::Data { count, text: escaped }) = meaning(pkt) {
            assert(pkt.data.0@.len() == BLOCK_SIZE);
            lemma_seek(pkt.data@, SLASH, pkt.id_end + 1);
            lemma_unescape_shrinks(escaped);
        }
    }
}

/// Events are in bounds all along while as many blocks as there are of them
/// would fit in what positions are left.
pub proof fn law_runs_are_in_bounds(s: Session, events: Seq<Event>)
    requires
        forall|i: int| 0 <= i < events.len() ==> laid_out(#[trigger] events[i]),
        s.received + BLOCK_SIZE * events.len() <= usize::MAX,
    ensures
        all_in_bounds(s, events),
    decreases events.len(),
{
    if events.len() > 0 {
        let rest = events.skip(1);
        lemma_flushed_keeps_id(s);
        assert(laid_out(events[0]));
        law_a_packet_brings_at_most_a_block(flushed(s), events[0]);
        assert forall|i: int| 0 <= i < rest.len() implies laid_out(#[trigger] rest[i]) by {
            assert(rest[i] == events[i + 1]);
        }
        law_runs_are_in_bounds(flushed(s).after(events[0]), rest);
    }
}

/// Whatever parts of a stream come, there is a position for what each of them
/// brings, if there is one for the whole stream.
pub proof fn law_deliveries_are_in_bounds(id: Seq<u8>, stream: Seq<u8>, parts: Seq<Span>, p: Span)
    requires
        forall|i: int|
            0 <= i < parts.len() ==> (#[trigger] parts[i]).start <= parts[i].end <= stream.len(),
        p.start <= p.end <= stream.len(),
        id.len() <= NUM_LENGTH,
        stream.len() <= usize::MAX,
    ensures
        delivered(Session::fresh(id), stream, parts).after_data(
            p.start,
            escape(stream.subrange(p.start as int, p.end as int)),
        ).received <= usize::MAX,
{
    law_any_delivery_gives_a_beginning(id, stream, parts);
    let s = delivered(Session::fresh(id), stream, parts);
    law_parts_take_a_session_on(id, stream, s.received, p);
}

} // verus!
