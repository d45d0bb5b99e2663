//! The line-reversal application layer: one session.

use std::collections::{BTreeMap, VecDeque};
use std::sync::Arc;

use vstd::prelude::*;
use vstd::std_specs::iter::IteratorSpec;
use vstd::string::StringSliceAdditionalSpecFns;

use crate::bytes::{
    lemma_seek, lemma_seek_is, numeral, parse, position, seek, BACKSLASH, NEWLINE,
    SLASH,
};
use crate::line::stream::{
    chunks, lemma_carries_some, lemma_first_line, lemma_header_is_short, line_chunks, packets,
    queued, reversed_line, unescape, unfinished, Chunk, Queued,
};
use crate::line::types::{
    ack_bytes, close_bytes, MsgBlock, Pkt, PktType, Response, SessionId, BLOCK_SIZE,
    NUM_LENGTH,
};
use crate::text::{text_of, to_text};

verus! {

/// If we receive no data from a connection for this many seconds, we will
/// close it.
pub const CONNECTION_TIMEOUT: u64 = 20;

/// If we don't receive an ack of a data packet after this many seconds, we will
/// send it again.
pub const RETRANSMISSION_TIMEOUT: u64 = 3;

/// Struct that wraps a parsed data packet.
pub struct Data {
    pub data: MsgBlock,
    /// Position in the incoming byte stream where this message fits.
    pub count: usize,
    /// Offset of the beginning of the payload text.
    pub text_start: usize,
    pub length: usize,
}

impl Data {
    /// Whether the text lies inside the block.
    pub open spec fn wf(&self) -> bool {
        self.text_start <= self.length <= BLOCK_SIZE
    }

    /// The text to be reversed, as it stands in the packet.
    pub open spec fn text(&self) -> Seq<u8> {
        self.data@.subrange(self.text_start as int, self.length as int)
    }

    /// Return the data of the actual message (the text to be reversed).
    pub fn data(&self) -> (r: &[u8])
        requires
            self.wf(),
        ensures
            r@ == self.text(),
    {
        &self.data.as_ref()[self.text_start..self.length]
    }
}

/// Represents a fully-parsed message packet.
pub enum Msg {
    Ack { count: usize },
    Close,
    Connect,
    Data(Data),
}

/// What a message says.
pub enum Meaning {
    Ack { count: nat },
    Close,
    Connect,
    Data { count: nat, text: Seq<u8> },
}

/// The position field that starts at `start` in a block, with where it ends.
pub open spec fn count_field(block: Seq<u8>, start: int) -> Result<(nat, int), Seq<char>> {
    let end = seek(block, SLASH, start);
    let field = block.subrange(start, end);
    if end >= block.len() {
        Err("no end of count field"@)
    } else if !vstd::utf8::valid_utf8(field) {
        Err("count not valid UTF-8"@)
    } else {
        match numeral(field) {
            Some(n) => if n <= usize::MAX {
                Ok((n, end))
            } else {
                Err("count unparseable"@)
            },
            None => Err("count unparseable"@),
        }
    }
}

/// What the packet says whose type and id are known, or why it says nothing.
pub open spec fn meaning(pkt: Pkt) -> Result<Meaning, Seq<char>> {
    match pkt.ptype {
        PktType::Ack => match count_field(pkt.data@, pkt.id_end + 1) {
            Ok((count, end)) => if end + 1 != pkt.length {
                Err("ack packet has too many fields"@)
            } else {
                Ok(Meaning::Ack { count })
            },
            Err(e) => Err(e),
        },
        PktType::Close => Ok(Meaning::Close),
        PktType::Connect => Ok(Meaning::Connect),
        PktType::Data => match count_field(pkt.data@, pkt.id_end + 1) {
            Ok((count, end)) => if end + 1 > pkt.length - 1 {
                Err("data ends before it starts"@)
            } else {
                Ok(Meaning::Data { count, text: pkt.data@.subrange(end + 1, pkt.length - 1) })
            },
            Err(e) => Err(e),
        },
    }
}

/// `core::str::from_utf8`: success exactly on the byte strings that are valid
/// UTF-8, with the same bytes.
#[verifier::external_body]
fn utf8_text(bytes: &[u8]) -> (r: Option<&str>)
    ensures
        r is Some <==> vstd::utf8::valid_utf8(bytes@),
        r matches Some(s) ==> s.spec_bytes() == bytes@,
{
    core::str::from_utf8(bytes).ok()
}

impl Msg {
    /// What the message says.
    pub open spec fn says(&self) -> Meaning {
        match self {
            Msg::Ack { count } => Meaning::Ack { count: *count as nat },
            Msg::Close => Meaning::Close,
            Msg::Connect => Meaning::Connect,
            Msg::Data(d) => Meaning::Data { count: d.count as nat, text: d.text() },
        }
    }

    /// Parse the position in the bytestream.
    ///
    ///  * the outgoing bytestream if it's an ack packet
    ///  * the incoming bytestream if it's a data packet
    pub fn get_count(pkt: &Pkt) -> (r: Result<(usize, usize), &'static str>)
        requires
            pkt.id_end < BLOCK_SIZE,
        ensures
            match r {
                Ok((count, end)) => end < BLOCK_SIZE && count_field(pkt.data@, pkt.id_end + 1)
                    == Ok::<(nat, int), Seq<char>>((count as nat, end as int)),
                Err(e) => count_field(pkt.data@, pkt.id_end + 1) == Err::<(nat, int), Seq<char>>(
                    e@,
                ),
            },
    {
        let count_start: usize = pkt.id_end + 1;
        let block = pkt.data.as_ref();
        proof {
            lemma_seek(block@, SLASH, count_start as int);
        }
        let count_end: usize = match position(block, SLASH, count_start) {
            Some(i) => i,
            None => return Err("no end of count field"),
        };
        let field = &block[count_start..count_end];
        if utf8_text(field).is_none() {
            return Err("count not valid UTF-8");
        }
        match parse(field) {
            Some(count) => Ok((count, count_end)),
            None => Err("count unparseable"),
        }
    }

    /// Parse the remainder of an incoming packet.
    pub fn from_pkt(pkt: Pkt) -> (r: Result<Msg, &'static str>)
        requires
            pkt.id_end < pkt.length <= BLOCK_SIZE,
        ensures
            match r {
                Ok(m) => meaning(pkt) == Ok::<Meaning, Seq<char>>(m.says()) && (m matches Msg::Data(
                    d,
                ) ==> d.wf()),
                Err(e) => meaning(pkt) == Err::<Meaning, Seq<char>>(e@),
            },
    {
        match pkt.ptype {
            PktType::Ack => {
                let (count, count_end) = match Msg::get_count(&pkt) {
                    Ok(found) => found,
                    Err(e) => return Err(e),
                };
                if count_end + 1 != pkt.length {
                    Err("ack packet has too many fields")
                } else {
                    Ok(Msg::Ack { count })
                }
            },
            PktType::Close => Ok(Msg::Close),
            PktType::Connect => Ok(Msg::Connect),
            PktType::Data => {
                let (count, count_end) = match Msg::get_count(&pkt) {
                    Ok(found) => found,
                    Err(e) => return Err(e),
                };
                let text_start: usize = count_end + 1;
                let length: usize = pkt.length - 1;
                if text_start > length {
                    return Err("data ends before it starts");
                }
                Ok(Msg::Data(Data { data: pkt.data, count, text_start, length }))
            },
        }
    }
}

/// The text that an escaped text stands for, if it stands for one.
pub fn unescaped(s: &[u8]) -> (r: Option<Vec<u8>>)
    ensures
        match r {
            Some(t) => unescape(s@) == Some(t@) && t@.len() <= s@.len(),
            None => unescape(s@) is None,
        },
{
    let mut t: Vec<u8> = Vec::new();
    let mut i: usize = 0;
    assert(s@.skip(0) =~= s@);
    proof {
        if let Some(rest) = unescape(s@) {
            assert(t@ + rest =~= rest);
        }
    }
    while i < s.len()
        invariant
            i <= s@.len(),
            t@.len() <= i,
            match unescape(s@.skip(i as int)) {
                Some(rest) => unescape(s@) == Some(t@ + rest),
                None => unescape(s@) is None,
            },
        decreases s@.len() - i,
    {
        let ghost left = s@.skip(i as int);
        let ghost had = t@;
        let mut at: usize = i;
        if s[i] == BACKSLASH {
            at = i + 1;
            if at == s.len() {
                assert(t@ + Seq::<u8>::empty() =~= t@);
                return Some(t);
            }
        } else if s[i] == SLASH {
            return None;
        }
        t.push(s[at]);
        i = at + 1;
        proof {
            assert(s@.skip(i as int) =~= left.skip(i - (s@.len() - left.len())));
            if let Some(rest) = unescape(s@.skip(i as int)) {
                assert(had + (seq![s@[at as int]] + rest) =~= t@ + rest);
            }
        }
    }
    assert(s@.skip(i as int) =~= Seq::<u8>::empty());
    assert(t@ + Seq::<u8>::empty() =~= t@);
    Some(t)
}

/// `Arc::clone`: another handle on the same response.
#[verifier::external_body]
fn share(r: &Arc<Response>) -> (s: Arc<Response>)
    ensures
        s == *r,
{
    r.clone()
}

/// Envelope for return data messages.
///
/// These store the stream position in them, so they can be easily compared to
/// incoming ack messages.
pub struct DataResponse {
    pub response: Arc<Response>,
    pub count: usize,
}

impl View for DataResponse {
    type V = Queued;

    open spec fn view(&self) -> Queued {
        Queued { count: self.count as nat, bytes: self.response@ }
    }
}

/// What a session is at.
pub struct Session {
    /// The id that the client calls the session by.
    pub id: Seq<u8>,
    /// What has arrived of the line that is not complete yet.
    pub pending: Seq<u8>,
    /// The packets that have not been sent yet.
    pub queue: Seq<Queued>,
    /// The packets that have been sent and not acknowledged, by the position
    /// that acknowledges them.
    pub unacked: Map<usize, Seq<u8>>,
    /// How much of the incoming stream has arrived.
    pub received: nat,
    /// How much of the outgoing stream has been put into packets.
    pub sent: nat,
}

impl Session {
    /// A session at which nothing has happened.
    pub open spec fn fresh(id: Seq<u8>) -> Session {
        Session {
            id,
            pending: Seq::empty(),
            queue: Seq::empty(),
            unacked: Map::empty(),
            received: 0,
            sent: 0,
        }
    }

    /// The session once `text` has followed what was pending: the lines that
    /// are complete now are queued, reversed.
    pub open spec fn absorb(self, text: Seq<u8>) -> Session {
        let stream = self.pending + text;
        Session {
            pending: unfinished(stream),
            queue: self.queue + packets(self.id, line_chunks(self.id, self.sent, stream)),
            sent: (self.sent + stream.len() - unfinished(stream).len()) as nat,
            ..self
        }
    }

    /// The part of the text at position `count` that has not arrived before.
    pub open spec fn news(self, count: nat, text: Seq<u8>) -> Seq<u8> {
        if count + text.len() <= self.received {
            Seq::empty()
        } else {
            text.skip(self.received - count)
        }
    }

    /// Whether a data packet is let pass: it leaves no gap, it may hold
    /// something new, and its text is well escaped.
    pub open spec fn takes(self, count: nat, escaped: Seq<u8>) -> bool {
        count <= self.received < count + escaped.len() && unescape(escaped) is Some
    }

    /// The session after a data packet. What has arrived before stays, where
    /// the packet turns out to hold nothing new.
    pub open spec fn after_data(self, count: nat, escaped: Seq<u8>) -> Session {
        if self.takes(count, escaped) {
            let text = unescape(escaped)->Some_0;
            Session {
                received: if count + text.len() > self.received {
                    count + text.len()
                } else {
                    self.received
                },
                ..self.absorb(self.news(count, text))
            }
        } else {
            self
        }
    }

    /// What a data packet is answered. One that leaves a gap is answered with
    /// how far the stream has arrived, to get what is missing sent again.
    pub open spec fn data_reply(self, count: nat, escaped: Seq<u8>) -> Option<Seq<u8>> {
        if count > self.received {
            Some(ack_bytes(self.id, self.received))
        } else if self.takes(count, escaped) {
            Some(ack_bytes(self.id, self.after_data(count, escaped).received))
        } else {
            None
        }
    }

    /// The session after an acknowledgement.
    pub open spec fn after_ack(self, count: usize) -> Session {
        Session { unacked: self.unacked.remove(count), ..self }
    }

    /// The session once the first packet in the queue has been sent.
    pub open spec fn after_sending(self) -> Session {
        Session {
            queue: self.queue.skip(1),
            unacked: self.unacked.insert(self.queue[0].count as usize, self.queue[0].bytes),
            ..self
        }
    }

    /// Whether an acknowledgement is one of something sent.
    pub open spec fn ack_is_due(self, count: usize) -> bool {
        self.unacked.contains_key(count) || count <= self.sent
    }

    /// Whether nothing is lost: what has arrived is answered, or is pending.
    pub open spec fn balanced(self) -> bool {
        self.sent + self.pending.len() == self.received
    }

    /// Whether the position stays within a machine word when `n` more bytes
    /// come.
    pub open spec fn has_room(self, n: nat) -> bool {
        self.received + n <= usize::MAX
    }
}

/// As much of the state required to run a single session as we can collect
/// together in one struct.
pub struct LineReverser {
    id: SessionId,
    /// The SessionId of this session rendered as a UTF-8 string; this helps
    /// in printing log messages so we don't have to format it over and
    /// over again.
    idstr: String,
    /// Holds the incoming byte stream.
    buffer: Vec<u8>,
    /// Holds the packets to be sent.
    queue: VecDeque<DataResponse>,
    in_bytes: usize,
    out_bytes: usize,
    /// How much of the buffer is known to hold no newline.
    buffptr: usize,
    current_out: BTreeMap<usize, Arc<Response>>,
}

impl View for LineReverser {
    type V = Session;

    closed spec fn view(&self) -> Session {
        Session {
            id: self.id@,
            pending: self.buffer@,
            queue: self.queue@.map_values(|d: DataResponse| d@),
            unacked: self.current_out@.map_values(|r: Arc<Response>| r@),
            received: self.in_bytes as nat,
            sent: self.out_bytes as nat,
        }
    }
}

impl LineReverser {
    /// Whether every packet is a data packet of this session.
    spec fn own_packets(&self) -> bool {
        &&& self.id@.len() <= NUM_LENGTH
        &&& forall|i: int|
            0 <= i < self.queue@.len() ==> (#[trigger] self.queue@[i]).response.session()
                == self.id@ && self.queue@[i].response.kind() == PktType::Data
        &&& forall|k: usize| #[trigger]
            self.current_out@.contains_key(k) ==> self.current_out@[k].session() == self.id@
                && self.current_out@[k].kind() == PktType::Data
    }

    /// Whether the searched part of the buffer holds no newline.
    spec fn searched(&self) -> bool {
        &&& self.buffptr <= self.buffer@.len()
        &&& forall|i: int| 0 <= i < self.buffptr ==> self.buffer@[i] != NEWLINE
    }

    /// Whether the session is in order: its packets are its own, what it holds
    /// of an unfinished line has no newline, and nothing is lost.
    pub closed spec fn wf(&self) -> bool {
        &&& self.own_packets()
        &&& self.searched()
        &&& self.buffptr == self.buffer@.len()
        &&& self.out_bytes + self.buffer@.len() == self.in_bytes
        &&& self.idstr@ == text_of(self.id@)
    }

    /// The id of the session as a text.
    pub fn idstr(&self) -> (r: &str)
        requires
            self.wf(),
        ensures
            r@ == text_of(self@.id),
    {
        self.idstr.as_str()
    }

    /// A session at which nothing has happened.
    pub fn new(id: SessionId) -> (r: LineReverser)
        ensures
            r.wf(),
            r@ == Session::fresh(id@),
    {
        let idstr = to_text(id.as_slice());
        let r = LineReverser {
            id,
            idstr,
            buffer: Vec::with_capacity(BLOCK_SIZE),
            queue: VecDeque::new(),
            in_bytes: 0,
            out_bytes: 0,
            buffptr: 0,
            current_out: BTreeMap::new(),
        };
        assert(r@.queue =~= Seq::<Queued>::empty());
        assert(r@.unacked =~= Map::<usize, Seq<u8>>::empty());
        r
    }

    /// The packet that was sent and is acknowledged by `count`, while that has
    /// not been acknowledged.
    pub fn current_response(&self, count: usize) -> (r: Option<Arc<Response>>)
        requires
            self.wf(),
        ensures
            match r {
                Some(a) => self@.unacked.contains_key(count) && a@ == self@.unacked[count]
                    && a.session() == self@.id && a.kind() == PktType::Data,
                None => !self@.unacked.contains_key(count),
            },
    {
        match self.current_out.get(&count) {
            Some(a) => Some(share(a)),
            None => None,
        }
    }

    /// The next packet to be sent, which is then one to be acknowledged.
    pub fn next_response(&mut self) -> (r: Option<DataResponse>)
        requires
            old(self).wf(),
        ensures
            final(self).wf(),
            match r {
                Some(d) => {
                    &&& old(self)@.queue.len() > 0
                    &&& d@ == old(self)@.queue[0]
                    &&& d.response.session() == old(self)@.id
                    &&& d.response.kind() == PktType::Data
                    &&& final(self)@ == old(self)@.after_sending()
                },
                None => old(self)@.queue.len() == 0 && final(self)@ == old(self)@,
            },
    {
        let ghost before = self@;
        let ghost was = *self;
        match self.queue.pop_front() {
            Some(d) => {
                self.current_out.insert(d.count, share(&d.response));
                proof {
                    assert(d == was.queue@[0]);
                    assert(self@.queue =~= before.queue.skip(1));
                    assert(self@.unacked =~= before.unacked.insert(d.count, d.response@));
                }
                Some(d)
            },
            None => {
                assert(self@.queue =~= before.queue);
                None
            },
        }
    }

    /// Takes an acknowledgement; one of more than was sent ends the session,
    /// with the response given.
    pub fn ack(&mut self, count: usize) -> (r: Result<(), Response>)
        requires
            old(self).wf(),
        ensures
            final(self).wf(),
            final(self)@ == old(self)@.after_ack(count),
            r is Ok <==> old(self)@.ack_is_due(count),
            r matches Err(c) ==> c@ == close_bytes(old(self)@.id) && c.session() == old(self)@.id
                && c.kind() == PktType::Close,
    {
        let ghost before = self@;
        let removed = self.current_out.remove(&count);
        assert(self@.unacked =~= before.unacked.remove(count));
        if removed.is_some() {
            Ok(())
        } else if count <= self.out_bytes {
            Ok(())
        } else {
            proof {
                reveal_strlit("close");
            }
            Err(Response::close(self.id.as_slice()))
        }
    }

    /// Queues the lines in the buffer that are complete.
    fn analyze_buffer(&mut self)
        requires
            old(self).own_packets(),
            old(self).searched(),
            old(self).idstr@ == text_of(old(self).id@),
            old(self).out_bytes + old(self).buffer@.len() == old(self).in_bytes,
        ensures
            final(self).wf(),
            final(self)@ == old(self)@.absorb(Seq::empty()),
        decreases old(self).buffer@.len(),
    {
        let ghost before = self@;
        let ghost stream = self.buffer@;
        assert(before.pending + Seq::<u8>::empty() =~= stream);
        proof {
            lemma_seek(stream, NEWLINE, self.buffptr as int);
            lemma_seek_is(stream, NEWLINE, 0, seek(stream, NEWLINE, self.buffptr as int));
            lemma_first_line(stream);
        }
        match position(self.buffer.as_slice(), NEWLINE, self.buffptr) {
            Some(i) => {
                let mut line = self.buffer.split_off(i + 1);
                std::mem::swap(&mut self.buffer, &mut line);
                self.buffptr = 0;
                assert(line@ =~= stream.take(i + 1));
                assert(self.buffer@ =~= stream.skip(i + 1));
                self.queue_line(line);
                let ghost middle = self@;
                assert(middle.pending + Seq::<u8>::empty() =~= stream.skip(i + 1));
                self.analyze_buffer();
                proof {
                    assert(self@.queue =~= before.absorb(Seq::empty()).queue);
                }
            },
            None => {
                self.buffptr = self.buffer.len();
                assert(self@.queue =~= before.absorb(Seq::empty()).queue);
            },
        }
    }

    /// Queues one line, reversed.
    fn queue_line(&mut self, line: Vec<u8>)
        requires
            old(self).own_packets(),
            old(self).searched(),
            line@.len() > 0,
            old(self).out_bytes + line@.len() <= usize::MAX,
        ensures
            final(self).own_packets(),
            final(self).searched(),
            final(self).idstr == old(self).idstr,
            final(self).buffer == old(self).buffer,
            final(self).buffptr == old(self).buffptr,
            final(self)@ == (Session {
                queue: old(self)@.queue + packets(
                    old(self)@.id,
                    chunks(old(self)@.id, old(self)@.sent, reversed_line(line@)),
                ),
                sent: old(self)@.sent + line@.len(),
                ..old(self)@
            }),
    {
        let ghost before = *self;
        let ghost id = self.id@;
        let ghost sent = self.out_bytes as nat;
        let ghost text = reversed_line(line@);
        let n_bytes: usize = line.len();
        let mut bytes: Vec<u8> = Vec::new();
        let mut i: usize = n_bytes - 1;
        while i > 0
            invariant
                i < n_bytes,
                n_bytes == line@.len(),
                bytes@.len() == n_bytes - 1 - i,
                forall|j: int| 0 <= j < bytes@.len() ==> bytes@[j] == line@[n_bytes - 2 - j],
            decreases i,
        {
            i = i - 1;
            bytes.push(line[i]);
        }
        bytes.push(NEWLINE);
        assert(bytes@ =~= text);
        let mut source = bytes.into_iter();
        let mut bytes_packed: usize = 0;
        let ghost mut done: Seq<Chunk> = Seq::empty();
        assert(text.skip(0) =~= text);
        assert(done + chunks(id, sent, text) =~= chunks(id, sent, text));
        assert(self.queue@.map_values(|d: DataResponse| d@) =~= before@.queue + packets(id, done));
        while bytes_packed < n_bytes
            invariant
                self.id == before.id,
                self.idstr == before.idstr,
                self.buffer == before.buffer,
                self.buffptr == before.buffptr,
                self.in_bytes == before.in_bytes,
                self.out_bytes == before.out_bytes,
                self.current_out == before.current_out,
                self.own_packets(),
                id == before.id@,
                sent == before.out_bytes,
                text.len() == n_bytes,
                sent + n_bytes <= usize::MAX,
                bytes_packed <= n_bytes,
                IteratorSpec::obeys_prophetic_iter_laws(&source),
                IteratorSpec::remaining(&source) == text.skip(bytes_packed as int),
                chunks(id, sent, text) == done + chunks(
                    id,
                    (sent + bytes_packed) as nat,
                    text.skip(bytes_packed as int),
                ),
                self.queue@.map_values(|d: DataResponse| d@) == before@.queue + packets(id, done),
            decreases n_bytes - bytes_packed,
        {
            let count: usize = self.out_bytes + bytes_packed;
            let ghost left = text.skip(bytes_packed as int);
            proof {
                lemma_header_is_short(id, count as nat);
                lemma_carries_some(id, count as nat, left);
            }
            let (response, n) = Response::fill(self.id.as_slice(), count, &mut source);
            let response = Arc::new(response);
            bytes_packed = bytes_packed + n;
            let d = DataResponse { response, count: self.out_bytes + bytes_packed };
            let ghost c = Chunk { start: count as nat, text: left.take(n as int) };
            let ghost had = self.queue@;
            self.queue.push_back(d);
            proof {
                assert(d@ == queued(id, c));
                assert(left.skip(n as int) =~= text.skip(bytes_packed as int));
                assert(chunks(id, sent, text) =~= done.push(c) + chunks(
                    id,
                    (sent + bytes_packed) as nat,
                    text.skip(bytes_packed as int),
                ));
                assert(packets(id, done.push(c)) =~= packets(id, done).push(queued(id, c)));
                assert(self.queue@.map_values(|d: DataResponse| d@) =~= had.map_values(
                    |d: DataResponse| d@,
                ).push(d@));
                assert(self.queue@.map_values(|d: DataResponse| d@) =~= before@.queue + packets(
                    id,
                    done.push(c),
                ));
                done = done.push(c);
            }
        }
        assert(chunks(id, sent + n_bytes as nat, text.skip(n_bytes as int))
            =~= Seq::<Chunk>::empty());
        assert(done =~= chunks(id, sent, text));
        self.out_bytes = self.out_bytes + n_bytes;
    }

    /// Takes a data packet: reverses the lines that it completes, and gives
    /// what is to be answered. A packet with an unescaped slash in its text is
    /// ignored.
    pub fn read_data(&mut self, d: Data) -> (r: Result<Option<Response>, Response>)
        requires
            old(self).wf(),
            d.wf(),
            old(self)@.after_data(d.count as nat, d.text()).received <= usize::MAX,
        ensures
            final(self).wf(),
            final(self)@ == old(self)@.after_data(d.count as nat, d.text()),
            r is Ok,
            match r->Ok_0 {
                Some(a) => old(self)@.data_reply(d.count as nat, d.text()) == Some(a@)
                    && a.session() == old(self)@.id && a.kind() == PktType::Ack,
                None => old(self)@.data_reply(d.count as nat, d.text()) is None,
            },
    {
        let ghost before = self@;
        if d.count > self.in_bytes {
            proof {
                lemma_header_is_short(self.id@, self.in_bytes as nat);
            }
            // We're missing a Data message; we'll ack with the last one we
            // got to try to get them to send it again.
            return Ok(Some(Response::ack(self.id.as_slice(), self.in_bytes)));
        } else if d.data().len() <= self.in_bytes - d.count {
            // We are guaranteed to already have this entire message (and
            // maybe a few bytes more, if there are escaped bytes), so
            // we can safely ignore this.
            return Ok(None);
        }
        let text = match unescaped(d.data()) {
            Some(text) => text,
            None => return Ok(None),
        };
        let seen: usize = self.in_bytes - d.count;
        if seen < text.len() {
            self.buffer.extend_from_slice(&text.as_slice()[seen..text.len()]);
            self.in_bytes = d.count + text.len();
        }
        let ghost news = before.news(d.count as nat, text@);
        proof {
            assert(self.buffer@ =~= before.pending + news);
            lemma_header_is_short(self.id@, self.in_bytes as nat);
            assert(self.buffer@ + Seq::<u8>::empty() =~= self.buffer@);
        }
        let r = Response::ack(self.id.as_slice(), self.in_bytes);
        self.analyze_buffer();
        Ok(Some(r))
    }
}

/// What a session waits for.
pub enum Event {
    /// A packet for this session.
    Packet(Pkt),
    /// No more packets can come.
    Hangup,
    /// The time to acknowledge up to a position, `RETRANSMISSION_TIMEOUT`, has
    /// run out.
    Timeout(usize),
    /// Nothing has come for `CONNECTION_TIMEOUT`.
    Idle,
}

/// What a session does at an event.
pub struct Reaction {
    /// What is to be sent to the client.
    pub send: Option<Arc<Response>>,
    /// The position for whose acknowledgement to wait anew, for
    /// `RETRANSMISSION_TIMEOUT`.
    pub timer: Option<usize>,
    /// Whether to start anew to wait for the client, for `CONNECTION_TIMEOUT`.
    pub refresh: bool,
    /// Whether the session is over.
    pub done: bool,
}

impl Session {
    /// The session after an event.
    pub open spec fn after(self, e: Event) -> Session {
        match e {
            Event::Packet(pkt) => match meaning(pkt) {
                Ok(Meaning::Ack { count }) => self.after_ack(count as usize),
                Ok(Meaning::Data { count, text }) => self.after_data(count, text),
                _ => self,
            },
            _ => self,
        }
    }

    /// What is sent at an event, and as what type of message.
    pub open spec fn reply(self, e: Event) -> Option<(PktType, Seq<u8>)> {
        match e {
            Event::Packet(pkt) => match meaning(pkt) {
                Err(_) => None,
                Ok(Meaning::Ack { count }) => if self.ack_is_due(count as usize) {
                    None
                } else {
                    Some((PktType::Close, close_bytes(self.id)))
                },
                Ok(Meaning::Close) => Some((PktType::Close, close_bytes(self.id))),
                Ok(Meaning::Connect) => Some((PktType::Ack, ack_bytes(self.id, 0))),
                Ok(Meaning::Data { count, text }) => match self.data_reply(count, text) {
                    Some(bytes) => Some((PktType::Ack, bytes)),
                    None => None,
                },
            },
            Event::Hangup => None,
            Event::Timeout(count) => if self.unacked.contains_key(count) {
                Some((PktType::Data, self.unacked[count]))
            } else {
                None
            },
            Event::Idle => Some((PktType::Close, close_bytes(self.id))),
        }
    }

    /// Whether an event ends the session: the client closes it, or
    /// acknowledges what was not sent, or cannot be heard any more.
    pub open spec fn ends(self, e: Event) -> bool {
        match e {
            Event::Packet(pkt) => match meaning(pkt) {
                Ok(Meaning::Ack { count }) => !self.ack_is_due(count as usize),
                Ok(Meaning::Close) => true,
                _ => false,
            },
            Event::Hangup => true,
            Event::Timeout(_) => false,
            Event::Idle => true,
        }
    }
}

impl LineReverser {
    /// Whether the position stays within a machine word whatever packet comes
    /// next.
    pub fn has_room(&self) -> (r: bool)
        ensures
            r == self@.has_room(BLOCK_SIZE as nat),
    {
        self.in_bytes <= usize::MAX - BLOCK_SIZE
    }

    /// Takes an event, and tells what is to be done. The packets that the
    /// event has queued are to be had from `next_response`.
    pub fn handle(&mut self, e: Event) -> (r: Reaction)
        requires
            old(self).wf(),
            e matches Event::Packet(pkt) ==> pkt.id_end < pkt.length <= BLOCK_SIZE,
            old(self)@.after(e).received <= usize::MAX,
        ensures
            final(self).wf(),
            final(self)@ == old(self)@.after(e),
            match r.send {
                Some(a) => old(self)@.reply(e) == Some((a.kind(), a@)) && a.session() == old(
                    self,
                )@.id,
                None => old(self)@.reply(e) is None,
            },
            r.done == old(self)@.ends(e),
            r.refresh == (e is Packet),
            r.timer == match e {
                Event::Timeout(count) => if old(self)@.unacked.contains_key(count) {
                    Some(count)
                } else {
                    None
                },
                _ => None,
            },
    {
        proof {
            reveal_strlit("close");
            lemma_header_is_short(self.id@, 0);
        }
        match e {
            Event::Packet(pkt) => match Msg::from_pkt(pkt) {
                Err(_) => Reaction { send: None, timer: None, refresh: true, done: false },
                Ok(Msg::Ack { count }) => match self.ack(count) {
                    Ok(()) => Reaction { send: None, timer: None, refresh: true, done: false },
                    Err(c) => Reaction {
                        send: Some(Arc::new(c)),
                        timer: None,
                        refresh: true,
                        done: true,
                    },
                },
                Ok(Msg::Close) => Reaction {
                    send: Some(Arc::new(Response::close(self.id.as_slice()))),
                    timer: None,
                    refresh: true,
                    done: true,
                },
                Ok(Msg::Connect) => Reaction {
                    send: Some(Arc::new(Response::ack(self.id.as_slice(), 0))),
                    timer: None,
                    refresh: true,
                    done: false,
                },
                Ok(Msg::Data(d)) => match self.read_data(d) {
                    Ok(Some(a)) => Reaction {
                        send: Some(Arc::new(a)),
                        timer: None,
                        refresh: true,
                        done: false,
                    },
                    Ok(None) => Reaction { send: None, timer: None, refresh: true, done: false },
                    Err(c) => Reaction {
                        send: Some(Arc::new(c)),
                        timer: None,
                        refresh: true,
                        done: true,
                    },
                },
            },
            Event::Hangup => Reaction { send: None, timer: None, refresh: false, done: true },
            Event::Timeout(count) => match self.current_response(count) {
                Some(a) => Reaction {
                    send: Some(a),
                    timer: Some(count),
                    refresh: false,
                    done: false,
                },
                None => Reaction { send: None, timer: None, refresh: false, done: false },
            },
            Event::Idle => Reaction {
                send: Some(Arc::new(Response::close(self.id.as_slice()))),
                timer: None,
                refresh: false,
                done: true,
            },
        }
    }
}

} // verus!
