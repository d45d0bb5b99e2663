//! Types that pass between the router and its sessions.

use vstd::prelude::*;
use vstd::std_specs::iter::IteratorSpec;
use vstd::string::*;

use crate::bytes::{
    ascii, ascii_bytes, decimal, lemma_seek, lemma_seek_is, position, same, seek, to_decimal,
    BACKSLASH, SLASH,
};
use crate::text::{quote, quoted, text_of, to_text};

verus! {

/// The size of the block that a packet is read into.
pub const BLOCK_SIZE: usize = 1024;

/// No byte is added to a data packet that has grown to this size.
pub const MAX_PACKET_SIZE: usize = 998;

/// The most bytes of a session id that are kept.
pub const NUM_LENGTH: usize = 10;

/// Room for one packet.
pub struct MsgBlock(pub [u8; BLOCK_SIZE]);

impl View for MsgBlock {
    type V = Seq<u8>;

    open spec fn view(&self) -> Seq<u8> {
        self.0@
    }
}

impl MsgBlock {
    /// A block of zeros.
    pub fn new() -> (r: MsgBlock)
        ensures
            r@ == Seq::new(BLOCK_SIZE as nat, |i: int| 0u8),
    {
        let r = MsgBlock([0u8; BLOCK_SIZE]);
        assert(r@ =~= Seq::new(BLOCK_SIZE as nat, |i: int| 0u8));
        r
    }

    /// The bytes of the block.
    pub fn as_ref(&self) -> (r: &[u8])
        ensures
            r@ == self@,
            r@.len() == BLOCK_SIZE,
    {
        self.0.as_slice()
    }

    /// The bytes of the block, to be written.
    pub fn as_mut(&mut self) -> (r: &mut [u8])
        ensures
            r@ == old(self)@,
            r@.len() == BLOCK_SIZE,
            final(self)@ == final(r)@,
    {
        &mut self.0
    }

    /// Writes `s` from `at` on, as much of it as the block has room for, and
    /// tells where the next byte would go.
    fn write(&mut self, at: usize, s: &[u8]) -> (end: usize)
        requires
            at <= BLOCK_SIZE,
        ensures
            end == if at + s@.len() <= BLOCK_SIZE {
                at + s@.len()
            } else {
                BLOCK_SIZE as int
            },
            final(self)@.take(end as int) == old(self)@.take(at as int) + s@.take(end - at),
    {
        let mut i: usize = 0;
        while i < s.len() && at + i < BLOCK_SIZE
            invariant
                at + i <= BLOCK_SIZE,
                i <= s@.len(),
                self@.len() == BLOCK_SIZE,
                old(self)@.len() == BLOCK_SIZE,
                forall|j: int| 0 <= j < at ==> self@[j] == old(self)@[j],
                forall|j: int| 0 <= j < i ==> self@[at + j] == s@[j],
            decreases s@.len() - i,
        {
            self.0[at + i] = s[i];
            i = i + 1;
        }
        assert(self@.take(at + i) =~= old(self)@.take(at as int) + s@.take(i as int));
        at + i
    }
}

/// The bytes of a session id, kept in place while they are few.
#[verifier::external_body]
pub struct IdBytes(smallvec::SmallVec<[u8; NUM_LENGTH]>);

/// What an `IdBytes` holds, in order.
pub uninterp spec fn id_contents(v: IdBytes) -> Seq<u8>;

/// `smallvec::SmallVec::from_slice`: a vector that holds the elements of the
/// slice, in order.
#[verifier::external_body]
fn id_from_slice(s: &[u8]) -> (r: IdBytes)
    ensures
        id_contents(r) == s@,
{
    IdBytes(smallvec::SmallVec::from_slice(s))
}

/// `smallvec::SmallVec::as_slice`: all that the vector holds, in order.
#[verifier::external_body]
fn id_as_slice(v: &IdBytes) -> (r: &[u8])
    ensures
        r@ == id_contents(*v),
{
    v.0.as_slice()
}

/// For use as keys in a mapping from session ids to sessions.
pub struct SessionId(IdBytes);

impl View for SessionId {
    type V = Seq<u8>;

    closed spec fn view(&self) -> Seq<u8> {
        id_contents(self.0)
    }
}

/// What is kept of the bytes that a client calls its session by.
pub open spec fn session_id(bytes: Seq<u8>) -> Seq<u8> {
    if bytes.len() > NUM_LENGTH {
        bytes.take(NUM_LENGTH as int)
    } else {
        bytes
    }
}

impl SessionId {
    #[verifier::type_invariant]
    spec fn short(&self) -> bool {
        id_contents(self.0).len() <= NUM_LENGTH
    }

    /// The id that keeps the first `NUM_LENGTH` of `bytes`.
    pub fn from(bytes: &[u8]) -> (r: SessionId)
        ensures
            r@ == session_id(bytes@),
    {
        if bytes.len() > NUM_LENGTH {
            SessionId(id_from_slice(&bytes[0..NUM_LENGTH]))
        } else {
            SessionId(id_from_slice(bytes))
        }
    }

    /// The bytes of the id.
    pub fn as_slice(&self) -> (r: &[u8])
        ensures
            r@ == self@,
            r@.len() <= NUM_LENGTH,
    {
        proof {
            use_type_invariant(self);
        }
        id_as_slice(&self.0)
    }

    /// The id as a text, in brackets: one character for each byte.
    pub fn to_text(&self) -> (r: String)
        ensures
            r@ == "["@ + self@.map_values(|b: u8| b as char) + "]"@,
    {
        let bytes = self.as_slice();
        let mut s = String::from_str("[");
        let mut i: usize = 0;
        assert(s@ =~= "["@ + bytes@.take(0).map_values(|b: u8| b as char));
        while i < bytes.len()
            invariant
                i <= bytes@.len(),
                s@ == "["@ + bytes@.take(i as int).map_values(|b: u8| b as char),
            decreases bytes@.len() - i,
        {
            s.push(bytes[i] as char);
            i = i + 1;
            assert(s@ =~= "["@ + bytes@.take(i as int).map_values(|b: u8| b as char));
        }
        assert(bytes@.take(i as int) =~= bytes@);
        s.append("]");
        s
    }

    /// How the id prints among other values: its name, and its text in brackets
    /// once more.
    pub fn debug_text(&self) -> (r: String)
        ensures
            r@ == "SessionId(["@ + ("["@ + self@.map_values(|b: u8| b as char) + "]"@) + "])"@,
    {
        let mut s = String::from_str("SessionId([");
        s.append(self.to_text().as_str());
        s.append("])");
        s
    }

    /// Another id with the same bytes.
    pub fn duplicate(&self) -> (r: SessionId)
        ensures
            r@ == self@,
    {
        SessionId::from(self.as_slice())
    }
}

/// The four types of messages in the protocol.
#[derive(Clone, Copy, Debug, PartialEq, Eq, Structural)]
pub enum PktType {
    Ack,
    Close,
    Connect,
    Data,
}

/// The partially-parsed data from a single UDP packet.
///
/// Enough of the data is parsed to determine its type and the session ID.
pub struct Pkt {
    pub ptype: PktType,
    pub data: MsgBlock,
    pub id_start: usize,
    pub id_end: usize,
    pub length: usize,
}

/// How a message of each type spells it.
pub open spec fn spelling(t: PktType) -> Seq<u8> {
    match t {
        PktType::Ack => ascii("ack"@),
        PktType::Close => ascii("close"@),
        PktType::Connect => ascii("connect"@),
        PktType::Data => ascii("data"@),
    }
}

/// How a message type prints.
pub open spec fn type_text(t: PktType) -> Seq<char> {
    match t {
        PktType::Ack => "Ack"@,
        PktType::Close => "Close"@,
        PktType::Connect => "Connect"@,
        PktType::Data => "Data"@,
    }
}

/// The message type with a given spelling.
pub open spec fn spelled(name: Seq<u8>) -> Option<PktType> {
    if name == spelling(PktType::Ack) {
        Some(PktType::Ack)
    } else if name == spelling(PktType::Close) {
        Some(PktType::Close)
    } else if name == spelling(PktType::Connect) {
        Some(PktType::Connect)
    } else if name == spelling(PktType::Data) {
        Some(PktType::Data)
    } else {
        None
    }
}

/// Where the parts of a packet lie.
pub struct Outline {
    pub ptype: PktType,
    pub id_start: int,
    pub id_end: int,
}

/// How the bytes of a packet are taken apart, or why they cannot be.
pub open spec fn outline(bytes: Seq<u8>) -> Result<Outline, Seq<char>> {
    let second = seek(bytes, SLASH, 1);
    let third = seek(bytes, SLASH, second + 1);
    if bytes.len() == 0 {
        Err("no data"@)
    } else if bytes[0] != SLASH {
        Err("no initial /"@)
    } else if bytes.last() != SLASH {
        Err("no final /"@)
    } else if second >= bytes.len() {
        Err("no second /"@)
    } else {
        match spelled(bytes.subrange(1, second)) {
            None => Err("unrecognized MsgType"@),
            Some(ptype) => if third >= bytes.len() {
                Err("no third /"@)
            } else if (ptype is Close || ptype is Connect) && third + 1 != bytes.len() {
                Err("too many fields"@)
            } else {
                Ok(Outline { ptype, id_start: second + 1, id_end: third })
            },
        }
    }
}

/// The message type with a given spelling.
fn find_type(name: &[u8]) -> (r: Option<PktType>)
    ensures
        r == spelled(name@),
{
    proof {
        reveal_strlit("ack");
        reveal_strlit("close");
        reveal_strlit("connect");
        reveal_strlit("data");
    }
    if same(name, ascii_bytes("ack")) {
        Some(PktType::Ack)
    } else if same(name, ascii_bytes("close")) {
        Some(PktType::Close)
    } else if same(name, ascii_bytes("connect")) {
        Some(PktType::Connect)
    } else if same(name, ascii_bytes("data")) {
        Some(PktType::Data)
    } else {
        None
    }
}

impl Pkt {
    /// The bytes that arrived.
    pub open spec fn bytes(&self) -> Seq<u8> {
        self.data@.take(self.length as int)
    }

    /// Whether the packet is laid out as its bytes say.
    pub open spec fn wf(&self) -> bool {
        &&& self.id_start <= self.id_end < self.length <= BLOCK_SIZE
        &&& outline(self.bytes()) == Ok::<Outline, Seq<char>>(
            Outline {
                ptype: self.ptype,
                id_start: self.id_start as int,
                id_end: self.id_end as int,
            },
        )
    }

    /// The bytes of the session ID.
    pub open spec fn session(&self) -> Seq<u8> {
        self.data@.subrange(self.id_start as int, self.id_end as int)
    }

    /// Given a block that holds the raw data from a UDP packet in its first
    /// `length` bytes, parse enough of it to give us a `Pkt`.
    pub fn new(data: MsgBlock, length: usize) -> (r: Result<Pkt, &'static str>)
        requires
            length <= BLOCK_SIZE,
        ensures
            match r {
                Ok(p) => p.wf() && p.data == data && p.length == length,
                Err(e) => outline(data@.take(length as int)) == Err::<Outline, Seq<char>>(e@),
            },
    {
        let bytes = &data.as_ref()[0..length];
        let ghost b = data@.take(length as int);
        assert(bytes@ =~= b);
        if length == 0 {
            return Err("no data");
        } else if bytes[0] != SLASH {
            return Err("no initial /");
        } else if bytes[length - 1] != SLASH {
            return Err("no final /");
        }
        let second_slash: usize = match position(bytes, SLASH, 1) {
            Some(i) => i,
            None => return Err("no second /"),
        };
        proof {
            lemma_seek(b, SLASH, 1);
        }
        let ptype = match find_type(&bytes[1..second_slash]) {
            Some(t) => t,
            None => return Err("unrecognized MsgType"),
        };
        let id_start: usize = second_slash + 1;
        let id_end: usize = match position(bytes, SLASH, id_start) {
            Some(i) => i,
            None => return Err("no third /"),
        };
        proof {
            lemma_seek(b, SLASH, id_start as int);
        }
        if (ptype == PktType::Close || ptype == PktType::Connect) && id_end + 1 != length {
            return Err("too many fields");
        }
        Ok(Pkt { ptype, data, id_start, id_end, length })
    }

    /// Expose the bytes of the session ID portion of the message.
    pub fn id(&self) -> (r: &[u8])
        requires
            self.id_start <= self.id_end <= BLOCK_SIZE,
        ensures
            r@ == self.session(),
    {
        &self.data.as_ref()[self.id_start..self.id_end]
    }

    /// How the packet prints.
    pub fn to_text(&self) -> (r: String)
        requires
            self.id_start <= self.id_end <= BLOCK_SIZE,
            self.length <= BLOCK_SIZE,
        ensures
            r@ == "Pkt { ptype: "@ + type_text(self.ptype) + ", id: "@ + quoted(
                text_of(self.session()),
            ) + ", data: "@ + quoted(text_of(self.bytes())) + " }"@,
    {
        let mut s = String::from_str("Pkt { ptype: ");
        s.append(
            match self.ptype {
                PktType::Ack => "Ack",
                PktType::Close => "Close",
                PktType::Connect => "Connect",
                PktType::Data => "Data",
            },
        );
        let id = to_text(self.id());
        let data = to_text(&self.data.as_ref()[0..self.length]);
        assert(self.data@.subrange(0, self.length as int) =~= self.bytes());
        s.append(", id: ");
        s.append(quote(id.as_str()).as_str());
        s.append(", data: ");
        s.append(quote(data.as_str()).as_str());
        s.append(" }");
        s
    }
}

/// How a byte of text stands in a data packet.
pub open spec fn escaped(b: u8) -> Seq<u8> {
    if b == SLASH || b == BACKSLASH {
        seq![BACKSLASH, b]
    } else {
        seq![b]
    }
}

/// How a text stands in a data packet: slashes and backslashes have a
/// backslash before them.
pub open spec fn escape(text: Seq<u8>) -> Seq<u8>
    decreases text.len(),
{
    if text.len() == 0 {
        Seq::empty()
    } else {
        escape(text.drop_last()) + escaped(text.last())
    }
}

/// How many bytes of `text` go into a packet before it has grown by `room`.
pub open spec fn fits(room: int, text: Seq<u8>) -> nat
    decreases text.len(),
{
    if room <= 0 || text.len() == 0 {
        0
    } else {
        1 + fits(room - escaped(text[0]).len(), text.skip(1))
    }
}

/// A packet of type `t` with the fields `id` and `count`.
pub open spec fn fields(t: PktType, id: Seq<u8>, count: nat) -> Seq<u8> {
    seq![SLASH] + spelling(t) + seq![SLASH] + id + seq![SLASH] + decimal(count) + seq![SLASH]
}

/// The bytes of an "ack" response.
pub open spec fn ack_bytes(id: Seq<u8>, count: nat) -> Seq<u8> {
    fields(PktType::Ack, id, count)
}

/// The bytes of a "data" response that carries `text`.
pub open spec fn data_bytes(id: Seq<u8>, count: nat, text: Seq<u8>) -> Seq<u8> {
    fields(PktType::Data, id, count) + escape(text) + seq![SLASH]
}

/// How much of `text` one "data" response carries.
pub open spec fn carried(id: Seq<u8>, count: nat, text: Seq<u8>) -> nat {
    fits(MAX_PACKET_SIZE - fields(PktType::Data, id, count).len(), text)
}

/// The bytes of a "close" response.
pub open spec fn close_bytes(id: Seq<u8>) -> Seq<u8> {
    seq![SLASH] + spelling(PktType::Close) + seq![SLASH] + id + seq![SLASH]
}

/// A response to be sent back to the client.
pub struct Response {
    data: MsgBlock,
    pub rtype: PktType,
    length: usize,
    id_start: usize,
    id_end: usize,
}

impl View for Response {
    type V = Seq<u8>;

    /// The whole message.
    closed spec fn view(&self) -> Seq<u8> {
        self.data@.take(self.length as int)
    }
}

impl Response {
    #[verifier::type_invariant]
    spec fn laid_out(&self) -> bool {
        self.id_start <= self.id_end <= self.length <= BLOCK_SIZE
    }

    /// The type of the message.
    pub closed spec fn kind(&self) -> PktType {
        self.rtype
    }

    /// The bytes of the session ID.
    pub closed spec fn session(&self) -> Seq<u8> {
        self.data@.subrange(self.id_start as int, self.id_end as int)
    }

    /// Writes the type and the two fields of a response; the positions are
    /// those of the id, and of what comes after the fields.
    fn header(data: &mut MsgBlock, t: PktType, id: &[u8], count: usize) -> (r: (
        usize,
        usize,
        usize,
    ))
        requires
            fields(t, id@, count as nat).len() <= BLOCK_SIZE,
        ensures
            r.0 <= r.1 <= r.2 <= BLOCK_SIZE,
            final(data)@.take(r.2 as int) == fields(t, id@, count as nat),
            final(data)@.subrange(r.0 as int, r.1 as int) == id@,
    {
        proof {
            reveal_strlit("ack");
            reveal_strlit("close");
            reveal_strlit("connect");
            reveal_strlit("data");
        }
        let slash: [u8; 1] = [SLASH];
        assert(slash@ =~= seq![SLASH]);
        let name = match t {
            PktType::Ack => ascii_bytes("ack"),
            PktType::Close => ascii_bytes("close"),
            PktType::Connect => ascii_bytes("connect"),
            PktType::Data => ascii_bytes("data"),
        };
        let digits = to_decimal(count as u64);
        let a: usize = data.write(0, slash.as_slice());
        assert(data@.take(a as int) =~= seq![SLASH]);
        let b: usize = data.write(a, name);
        assert(data@.take(b as int) =~= seq![SLASH] + spelling(t));
        let id_start: usize = data.write(b, slash.as_slice());
        assert(data@.take(id_start as int) =~= seq![SLASH] + spelling(t) + seq![SLASH]);
        let id_end: usize = data.write(id_start, id);
        assert(data@.take(id_end as int) =~= seq![SLASH] + spelling(t) + seq![SLASH] + id@);
        let c: usize = data.write(id_end, slash.as_slice());
        assert(data@.take(c as int) =~= seq![SLASH] + spelling(t) + seq![SLASH] + id@
            + seq![SLASH]);
        let d: usize = data.write(c, digits.as_slice());
        assert(data@.take(d as int) =~= seq![SLASH] + spelling(t) + seq![SLASH] + id@
            + seq![SLASH] + decimal(count as nat));
        let end: usize = data.write(d, slash.as_slice());
        assert(data@.take(end as int) =~= fields(t, id@, count as nat));
        assert(data@.subrange(id_start as int, id_end as int) =~= data@.take(end as int).subrange(
            id_start as int,
            id_end as int,
        ));
        assert(data@.subrange(id_start as int, id_end as int) =~= id@);
        (id_start, id_end, end)
    }

    /// Generate an "ack" response.
    pub fn ack(id: &[u8], count: usize) -> (r: Response)
        requires
            ack_bytes(id@, count as nat).len() <= BLOCK_SIZE,
        ensures
            r.kind() == PktType::Ack,
            r.session() == id@,
            r@ == ack_bytes(id@, count as nat),
    {
        let mut data = MsgBlock::new();
        let (id_start, id_end, length) = Response::header(&mut data, PktType::Ack, id, count);
        Response { data, rtype: PktType::Ack, length, id_start, id_end }
    }

    /// Generate and write data to a "data" response.
    ///
    /// The provided byte iterator should spit out the data; it may not
    /// be entirely used up if the message is long.
    pub fn data<I>(id: &[u8], count: usize, source: &mut I) -> (r: Response) where
        I: Iterator<Item = u8>,

        requires
            fields(PktType::Data, id@, count as nat).len() < BLOCK_SIZE,
        ensures
            r.kind() == PktType::Data,
            r.session() == id@,
            exists|text: Seq<u8>|
                r@ == data_bytes(id@, count as nat, text) && #[trigger] carried(
                    id@,
                    count as nat,
                    text,
                ) == text.len(),
            IteratorSpec::obeys_prophetic_iter_laws(final(source))
                == IteratorSpec::obeys_prophetic_iter_laws(old(source)),
            IteratorSpec::obeys_prophetic_iter_laws(old(source)) ==> ({
                let text = IteratorSpec::remaining(old(source));
                let n = carried(id@, count as nat, text) as int;
                &&& n <= text.len()
                &&& r@ == data_bytes(id@, count as nat, text.take(n))
                &&& IteratorSpec::remaining(final(source)) == text.skip(n)
            }),
    {
        let (r, _) = Response::fill(id, count, source);
        r
    }

    /// Generate a "data" response, and tell how many bytes it has taken.
    pub(crate) fn fill<I>(id: &[u8], count: usize, source: &mut I) -> (r: (Response, usize)) where
        I: Iterator<Item = u8>,

        requires
            fields(PktType::Data, id@, count as nat).len() < BLOCK_SIZE,
        ensures
            r.0.kind() == PktType::Data,
            r.0.session() == id@,
            exists|text: Seq<u8>|
                r.0@ == data_bytes(id@, count as nat, text) && #[trigger] carried(
                    id@,
                    count as nat,
                    text,
                ) == text.len() && r.1 == text.len(),
            IteratorSpec::obeys_prophetic_iter_laws(final(source))
                == IteratorSpec::obeys_prophetic_iter_laws(old(source)),
            IteratorSpec::obeys_prophetic_iter_laws(old(source)) ==> ({
                let text = IteratorSpec::remaining(old(source));
                let n = r.1 as int;
                &&& n == carried(id@, count as nat, text)
                &&& n <= text.len()
                &&& r.0@ == data_bytes(id@, count as nat, text.take(n))
                &&& IteratorSpec::remaining(final(source)) == text.skip(n)
            }),
    {
        let mut data = MsgBlock::new();
        let (id_start, id_end, start) = Response::header(&mut data, PktType::Data, id, count);
        let mut length: usize = start;
        let mut done: usize = 0;
        let ghost head = fields(PktType::Data, id@, count as nat);
        let ghost room = MAX_PACKET_SIZE - head.len();
        // What the source has given.
        let ghost mut got: Seq<u8> = Seq::empty();
        proof {
            let text = IteratorSpec::remaining(old(source));
            lemma_fits(room, text);
            assert(text.skip(0) =~= text);
            assert(text.take(0) =~= got);
            assert(data@.take(length as int) =~= head + escape(got));
        }
        while length < MAX_PACKET_SIZE
            invariant_except_break
                IteratorSpec::obeys_prophetic_iter_laws(old(source)) ==> carried(
                    id@,
                    count as nat,
                    IteratorSpec::remaining(old(source)),
                ) == done + fits(MAX_PACKET_SIZE - length, IteratorSpec::remaining(source)),
            invariant
                IteratorSpec::obeys_prophetic_iter_laws(source)
                    == IteratorSpec::obeys_prophetic_iter_laws(old(source)),
                head == fields(PktType::Data, id@, count as nat),
                room == MAX_PACKET_SIZE - head.len(),
                start <= length < BLOCK_SIZE,
                start == head.len(),
                data@.len() == BLOCK_SIZE,
                id_start <= id_end <= start,
                data@.subrange(id_start as int, id_end as int) == id@,
                done == got.len(),
                done <= length,
                data@.take(length as int) == head + escape(got),
                fits(room, got) == got.len(),
                IteratorSpec::obeys_prophetic_iter_laws(old(source)) ==> {
                    &&& done <= IteratorSpec::remaining(old(source)).len()
                    &&& got == IteratorSpec::remaining(old(source)).take(done as int)
                    &&& IteratorSpec::remaining(source) == IteratorSpec::remaining(
                        old(source),
                    ).skip(done as int)
                },
            ensures
                IteratorSpec::obeys_prophetic_iter_laws(old(source)) ==> carried(
                    id@,
                    count as nat,
                    IteratorSpec::remaining(old(source)),
                ) == done,
            decreases BLOCK_SIZE - length,
        {
            let ghost before = data@;
            let ghost was = length as int;
            match source.next() {
                None => {
                    break;
                },
                Some(b) => {
                    if b == SLASH || b == BACKSLASH {
                        data.0[length] = BACKSLASH;
                        length = length + 1;
                    }
                    data.0[length] = b;
                    length = length + 1;
                    done = done + 1;
                    proof {
                        assert(was == before.take(was).len());
                        lemma_fits_one_more(room, got, b);
                        assert(got.push(b).drop_last() =~= got);
                        got = got.push(b);
                        assert(data@.take(was) =~= before.take(was));
                        assert(data@.take(length as int) =~= data@.take(was) + escaped(b));
                        assert(data@.take(length as int) =~= head + escape(got));
                        assert(data@.subrange(id_start as int, id_end as int) =~= before.subrange(
                            id_start as int,
                            id_end as int,
                        ));
                        if IteratorSpec::obeys_prophetic_iter_laws(old(source)) {
                            let text = IteratorSpec::remaining(old(source));
                            assert(IteratorSpec::remaining(source) =~= text.skip(done as int));
                            assert(got =~= text.take(done as int));
                            assert(text.skip(done - 1).skip(1) =~= text.skip(done as int));
                        }
                    }
                },
            }
        }
        let ghost before = data@;
        data.0[length] = SLASH;
        assert(data@.take(length as int) =~= before.take(length as int));
        assert(data@.take(length + 1) =~= data_bytes(id@, count as nat, got));
        assert(data@.subrange(id_start as int, id_end as int) =~= before.subrange(
            id_start as int,
            id_end as int,
        ));
        assert(carried(id@, count as nat, got) == got.len());
        length = length + 1;
        (Response { data, rtype: PktType::Data, length, id_start, id_end }, done)
    }

    /// Generate a "close" message; of an id that leaves no room for the rest,
    /// the block holds what it can.
    pub fn close(id: &[u8]) -> (r: Response)
        ensures
            r.kind() == PktType::Close,
            close_bytes(id@).len() <= BLOCK_SIZE ==> r@ == close_bytes(id@) && r.session() == id@,
            close_bytes(id@).len() > BLOCK_SIZE ==> r@ == close_bytes(id@).take(BLOCK_SIZE as int)
                && r.session() == r@.subrange(7, BLOCK_SIZE - 1),
    {
        proof {
            reveal_strlit("close");
        }
        let slash: [u8; 1] = [SLASH];
        assert(slash@ =~= seq![SLASH]);
        let mut data = MsgBlock::new();
        let a: usize = data.write(0, slash.as_slice());
        assert(data@.take(a as int) =~= seq![SLASH]);
        let b: usize = data.write(a, ascii_bytes("close"));
        assert(data@.take(b as int) =~= seq![SLASH] + spelling(PktType::Close));
        let id_start: usize = data.write(b, slash.as_slice());
        assert(data@.take(id_start as int) =~= seq![SLASH] + spelling(PktType::Close)
            + seq![SLASH]);
        let c: usize = data.write(id_start, id);
        let length: usize = data.write(c, slash.as_slice());
        let id_end: usize = length - 1;
        let r = Response { data, rtype: PktType::Close, length, id_start, id_end };
        proof {
            if close_bytes(id@).len() <= BLOCK_SIZE {
                assert(r@ =~= close_bytes(id@));
                assert(r.session() =~= r@.subrange(7, id_end as int));
                assert(r.session() =~= id@);
            } else {
                assert(r@ =~= close_bytes(id@).take(BLOCK_SIZE as int));
                assert(r.session() =~= r@.subrange(7, BLOCK_SIZE - 1));
            }
        }
        r
    }

    /// The type of the message.
    pub fn rtype(&self) -> (r: PktType)
        ensures
            r == self.kind(),
    {
        self.rtype
    }

    /// Expose the bytes of the session ID.
    pub fn id(&self) -> (r: &[u8])
        ensures
            r@ == self.session(),
    {
        proof {
            use_type_invariant(self);
        }
        &self.data.as_ref()[self.id_start..self.id_end]
    }

    /// Expose the slice containing the whole message.
    pub fn bytes(&self) -> (r: &[u8])
        ensures
            r@ == self@,
    {
        proof {
            use_type_invariant(self);
        }
        &self.data.as_ref()[0..self.length]
    }

    /// How the response prints.
    pub fn to_text(&self) -> (r: String)
        ensures
            r@ == "Response { data: "@ + quoted(text_of(self@)) + " }"@,
    {
        let data = to_text(self.bytes());
        let mut s = String::from_str("Response { data: ");
        s.append(quote(data.as_str()).as_str());
        s.append(" }");
        s
    }
}

/// A text of one byte.
pub proof fn lemma_escape_one(b: u8)
    ensures
        escape(seq![b]) == escaped(b),
{
    assert(seq![b].drop_last() =~= Seq::<u8>::empty());
    assert(escape(Seq::<u8>::empty()) == Seq::<u8>::empty());
    assert(escape(seq![b]) =~= escaped(b));
}

/// Texts are escaped byte by byte.
pub proof fn lemma_escape_concat(a: Seq<u8>, b: Seq<u8>)
    ensures
        escape(a + b) == escape(a) + escape(b),
    decreases b.len(),
{
    if b.len() == 0 {
        assert(a + b =~= a);
        assert(escape(a) + escape(b) =~= escape(a));
    } else {
        lemma_escape_concat(a, b.drop_last());
        assert((a + b).drop_last() =~= a + b.drop_last());
        assert(escape(a + b) =~= escape(a) + escape(b));
    }
}

/// While there is room behind a text that fits, one more byte does.
pub proof fn lemma_fits_one_more(room: int, text: Seq<u8>, b: u8)
    requires
        fits(room, text) == text.len(),
        escape(text).len() < room,
    ensures
        fits(room, text.push(b)) == text.len() + 1,
    decreases text.len(),
{
    let more = text.push(b);
    if text.len() == 0 {
        assert(more.skip(1) =~= Seq::<u8>::empty());
        assert(fits(room - escaped(more[0]).len(), more.skip(1)) == 0);
    } else {
        let one = seq![text[0]];
        let rest = text.skip(1);
        assert(text =~= one + rest);
        lemma_escape_concat(one, rest);
        lemma_escape_one(text[0]);
        lemma_fits_one_more(room - escaped(text[0]).len(), rest, b);
        assert(more.skip(1) =~= rest.push(b));
    }
}

/// No more of a text fits than there is of it.
pub proof fn lemma_fits(room: int, text: Seq<u8>)
    ensures
        fits(room, text) <= text.len(),
        room > 0 && text.len() > 0 ==> fits(room, text) > 0,
    decreases text.len(),
{
    if room > 0 && text.len() > 0 {
        lemma_fits(room - escaped(text[0]).len(), text.skip(1));
    }
}

/// A packet that is spelled as the protocol says is recognized, with its type
/// and its id: slashes round the type and round the id, and at the end.
pub proof fn law_packets_are_recognized(t: PktType, id: Seq<u8>, rest: Seq<u8>)
    requires
        !id.contains(SLASH),
        rest.len() > 0 ==> rest.last() == SLASH && (t is Ack || t is Data),
    ensures
        ({
            let start = spelling(t).len() as int + 2;
            outline(seq![SLASH] + spelling(t) + seq![SLASH] + id + seq![SLASH] + rest) == Ok::<
                Outline,
                Seq<char>,
            >(Outline { ptype: t, id_start: start, id_end: start + id.len() as int })
        }),
{
    reveal_strlit("ack");
    reveal_strlit("close");
    reveal_strlit("connect");
    reveal_strlit("data");
    let name = spelling(t);
    let b = seq![SLASH] + name + seq![SLASH] + id + seq![SLASH] + rest;
    let m = name.len() as int;
    let n = id.len() as int;
    assert(b.subrange(1, 1 + m) =~= name);
    assert forall|j: int| 1 <= j < 1 + m implies b[j] != SLASH by {
        assert(b[j] == name[j - 1]);
    }
    lemma_seek_is(b, SLASH, 1, 1 + m);
    assert forall|j: int| 2 + m <= j < 2 + m + n implies b[j] != SLASH by {
        assert(b[j] == id[j - 2 - m]);
    }
    lemma_seek_is(b, SLASH, 2 + m, 2 + m + n);
    assert(spelling(PktType::Ack)[0] == 97);
    assert(spelling(PktType::Close)[0] == 99);
    assert(spelling(PktType::Connect)[0] == 99);
    assert(spelling(PktType::Data)[0] == 100);
    assert(spelling(PktType::Close).len() == 5);
    assert(spelling(PktType::Connect).len() == 7);
    assert(spelled(name) == Some(t));
    assert(b.last() == if rest.len() > 0 { rest.last() } else { SLASH });
}

} // verus!
