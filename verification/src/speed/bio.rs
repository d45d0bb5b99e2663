//! Reading and writing the binary protocol of cameras and dispatchers.

use vstd::prelude::*;
use vstd::string::*;

use crate::bytes::{be16, be32, get_u16, get_u32, push_u16, push_u32, same};
use crate::speed::error::{IoError, IoKind};
use crate::speed::wire::{front, law_later_bytes_change_nothing, prefixed, u16s_at, Front, Said};
use crate::table::Key;
use crate::text::{
    in_decimal, in_hex, push_decimal, push_hex, quote, quoted, text_of, to_text,
};

verus! {

/// Maximum length of the array of roads that is kept of a dispatcher's
/// announcement.
pub const LPU16ARR_LEN: usize = 32;

/// Length of buffer used to read messages. Based on the above limitation, the
/// maximum message length should be somewhat less than this.
pub const IO_BUFF_SIZE: usize = 300;

/// A unifying error type to make error handling a little easier.
#[derive(Debug, PartialEq, Eq)]
pub enum Error {
    /// The connected client has disconnected cleanly.
    Eof,
    /// The connected client has written some sort of message that doesn't
    /// conform to the protocol.
    ProtocolError(String),
    /// There was an actual OS-level read/write error.
    IOError(IoError),
}

/// Class to read, write, and represent the length-prefixed string.
///
/// As they are length-prefixed by a single u8, a 256-byte backing array
/// should be long enough to hold any possible string.
#[derive(Clone, Copy, Eq, PartialOrd, Ord)]
pub struct LPString {
    bytes: [u8; 256],
    length: usize,
}

impl View for LPString {
    type V = Seq<u8>;

    closed spec fn view(&self) -> Seq<u8> {
        self.bytes@.take(self.length as int)
    }
}

/// What a length-prefixed string keeps of a byte string.
pub open spec fn clipped(bytes: Seq<u8>) -> Seq<u8> {
    if bytes.len() > 255 {
        bytes.take(255)
    } else {
        bytes
    }
}

impl LPString {
    /// The length fits in its prefix, and the rest of the array is zero.
    #[verifier::type_invariant]
    pub closed spec fn padded(&self) -> bool {
        &&& self.length <= 255
        &&& forall|i: int| self.length <= i < 256 ==> #[trigger] self.bytes@[i] == 0
    }

    /// This is essentially the constructor. Of a string that is too long it
    /// copies what can fit.
    pub fn from(a: &[u8]) -> (r: LPString)
        ensures
            r@ == clipped(a@),
            r.padded(),
    {
        let mut bytes = [0u8; 256];
        let length: usize = if a.len() > 255 {
            255
        } else {
            a.len()
        };
        let mut i: usize = 0;
        while i < length
            invariant
                i <= length <= 255,
                length <= a@.len(),
                forall|j: int| 0 <= j < i ==> bytes@[j] == a@[j],
                forall|j: int| i <= j < 256 ==> #[trigger] bytes@[j] == 0,
            decreases length - i,
        {
            bytes[i] = a[i];
            i = i + 1;
        }
        let r = LPString { bytes, length };
        assert(r@ =~= clipped(a@));
        r
    }

    /// Expose the bytes that actually make up the message.
    pub fn as_slice(&self) -> (r: &[u8])
        ensures
            r@ == self@,
            r@.len() <= 255,
    {
        proof {
            use_type_invariant(self);
        }
        &self.bytes[0..self.length]
    }

    /// The string as text.
    pub fn to_text(&self) -> (r: String)
        ensures
            r@ == text_of(self@),
    {
        to_text(self.as_slice())
    }

    /// How the string prints among other values: its name, and its text in
    /// quotes.
    pub fn debug_text(&self) -> (r: String)
        ensures
            r@ == string_printed(self@),
    {
        let text = self.to_text();
        let mut s = String::from_str("LPString(");
        s.append(quote(text.as_str()).as_str());
        s.append(")");
        s
    }

    /// Writes the string, after its length in one byte.
    pub fn write(&self, w: &mut Vec<u8>)
        ensures
            self@.len() <= 255,
            final(w)@ == old(w)@ + prefixed(self@),
    {
        let bytes = self.as_slice();
        w.push(bytes.len() as u8);
        w.extend_from_slice(bytes);
        assert(w@ =~= old(w)@ + prefixed(self@));
    }
}

impl PartialEq for LPString {
    /// Strings are equal where their bytes are.
    fn eq(&self, other: &LPString) -> (r: bool) {
        same(self.as_slice(), other.as_slice())
    }
}

impl vstd::std_specs::cmp::PartialEqSpecImpl for LPString {
    open spec fn obeys_eq_spec() -> bool {
        true
    }

    open spec fn eq_spec(&self, other: &LPString) -> bool {
        self@ == other@
    }
}

/// A string is its bytes: two strings with the same bytes are the same, in the
/// unused part of their arrays too.
pub proof fn law_strings_are_their_bytes(a: LPString, b: LPString)
    requires
        a.padded(),
        b.padded(),
    ensures
        a@ == b@ <==> a == b,
{
    if a@ == b@ {
        assert(a@.len() == a.length);
        assert(b@.len() == b.length);
        assert forall|i: int| 0 <= i < 256 implies a.bytes@[i] == b.bytes@[i] by {
            if i < a.length {
                assert(a@[i] == b@[i]);
            }
        }
        assert(a.bytes@ =~= b.bytes@);
        assert(a.bytes =~= b.bytes);
    }
}

/// A byte string that fits reads back, and different ones make different
/// strings.
pub proof fn law_short_strings_are_kept_apart(a: Seq<u8>, b: Seq<u8>)
    requires
        a.len() <= 255,
        b.len() <= 255,
    ensures
        clipped(a) == a,
        clipped(a) == clipped(b) <==> a == b,
{
}

impl Key for LPString {
    open spec fn key(&self) -> Seq<u8> {
        self@
    }

    fn key_bytes(&self) -> (r: &[u8]) {
        self.as_slice()
    }
}

/// The IAmDispatcher message sends a length-prefixed array of u16s.
///
/// We have to read it, but we never have to write one. It functions
/// much like the LPString above.
#[derive(Clone, Copy, PartialEq, Eq)]
pub struct LPU16Array {
    data: [u16; LPU16ARR_LEN],
    length: usize,
}

impl View for LPU16Array {
    type V = Seq<u16>;

    closed spec fn view(&self) -> Seq<u16> {
        self.data@.take(self.length as int)
    }
}

impl LPU16Array {
    /// The length is that of a part of the array, and the rest is zero.
    #[verifier::type_invariant]
    spec fn padded(&self) -> bool {
        &&& self.length <= LPU16ARR_LEN
        &&& forall|i: int| self.length <= i < LPU16ARR_LEN ==> #[trigger] self.data@[i] == 0
    }

    /// The array that holds the first values of `a`, as many as it can.
    pub fn from(a: &[u16]) -> (r: LPU16Array)
        ensures
            r@ == if a@.len() > LPU16ARR_LEN {
                a@.take(LPU16ARR_LEN as int)
            } else {
                a@
            },
    {
        let mut data = [0u16; LPU16ARR_LEN];
        let length: usize = if a.len() > LPU16ARR_LEN {
            LPU16ARR_LEN
        } else {
            a.len()
        };
        let mut i: usize = 0;
        while i < length
            invariant
                i <= length <= LPU16ARR_LEN,
                length <= a@.len(),
                forall|j: int| 0 <= j < i ==> data@[j] == a@[j],
                forall|j: int| i <= j < LPU16ARR_LEN ==> #[trigger] data@[j] == 0,
            decreases length - i,
        {
            data[i] = a[i];
            i = i + 1;
        }
        let r = LPU16Array { data, length };
        assert(r@ =~= if a@.len() > LPU16ARR_LEN {
            a@.take(LPU16ARR_LEN as int)
        } else {
            a@
        });
        r
    }

    /// Expose the set values in the array.
    pub fn as_slice(&self) -> (r: &[u16])
        ensures
            r@ == self@,
            r@.len() <= LPU16ARR_LEN,
    {
        proof {
            use_type_invariant(self);
        }
        &self.data[0..self.length]
    }

    /// How the array prints among other values: its name, and its set values.
    pub fn debug_text(&self) -> (r: String)
        ensures
            r@ == array_printed(self@),
    {
        let mut s = String::from_str("LPU16Array([");
        push_listing(&mut s, self.as_slice());
        s.append("])");
        s
    }
}

/// Messages sent from the connected devices to the server.
#[derive(Clone, Copy, PartialEq, Eq)]
pub enum ClientMessage {
    // 0x20
    Plate { plate: LPString, timestamp: u32 },
    // 0x40
    WantHeartbeat { interval: u32 },
    // 0x80
    IAmCamera { road: u16, mile: u16, limit: u16 },
    // 0x81
    IAmDispatcher { roads: LPU16Array },
}

impl View for ClientMessage {
    type V = Said;

    open spec fn view(&self) -> Said {
        match *self {
            ClientMessage::Plate { plate, timestamp } => Said::Plate { plate: plate@, timestamp },
            ClientMessage::WantHeartbeat { interval } => Said::WantHeartbeat { interval },
            ClientMessage::IAmCamera { road, mile, limit } => Said::IAmCamera {
                road,
                mile,
                limit,
            },
            ClientMessage::IAmDispatcher { roads } => Said::IAmDispatcher { roads: roads@ },
        }
    }
}

/// Numbers in decimal, with commas between them.
pub open spec fn listing(ns: Seq<u16>) -> Seq<char>
    decreases ns.len(),
{
    if ns.len() == 0 {
        Seq::empty()
    } else if ns.len() == 1 {
        in_decimal(ns[0] as nat)
    } else {
        listing(ns.drop_last()) + ", "@ + in_decimal(ns.last() as nat)
    }
}

/// How a length-prefixed string prints among other values.
pub open spec fn string_printed(bytes: Seq<u8>) -> Seq<char> {
    "LPString("@ + quoted(text_of(bytes)) + ")"@
}

/// How a length-prefixed array prints among other values.
pub open spec fn array_printed(ns: Seq<u16>) -> Seq<char> {
    "LPU16Array(["@ + listing(ns) + "])"@
}

/// How a message prints.
pub open spec fn printed(m: Said) -> Seq<char> {
    match m {
        Said::Plate { plate, timestamp } => "Plate { plate: "@ + string_printed(plate)
            + ", timestamp: "@ + in_decimal(timestamp as nat) + " }"@,
        Said::WantHeartbeat { interval } => "WantHeartbeat { interval: "@ + in_decimal(
            interval as nat,
        ) + " }"@,
        Said::IAmCamera { road, mile, limit } => "IAmCamera { road: "@ + in_decimal(road as nat)
            + ", mile: "@ + in_decimal(mile as nat) + ", limit: "@ + in_decimal(limit as nat)
            + " }"@,
        Said::IAmDispatcher { roads } => "IAmDispatcher { roads: "@ + array_printed(roads) + " }"@,
    }
}

/// Adds numbers in decimal, with commas between them.
fn push_listing(s: &mut String, ns: &[u16])
    ensures
        final(s)@ == old(s)@ + listing(ns@),
{
    let ghost before = s@;
    let mut i: usize = 0;
    assert(ns@.take(0) =~= Seq::<u16>::empty());
    assert(before + listing(ns@.take(0)) =~= before);
    while i < ns.len()
        invariant
            i <= ns@.len(),
            s@ == before + listing(ns@.take(i as int)),
        decreases ns@.len() - i,
    {
        let ghost had = listing(ns@.take(i as int));
        if i > 0 {
            s.append(", ");
        }
        push_decimal(s, ns[i] as u64);
        i = i + 1;
        assert(ns@.take(i as int).drop_last() =~= ns@.take(i - 1));
        assert(s@ =~= before + listing(ns@.take(i as int)));
    }
    assert(ns@.take(i as int) =~= ns@);
}

impl ClientMessage {
    /// How the message prints.
    pub fn to_text(&self) -> (r: String)
        ensures
            r@ == printed(self@),
    {
        let mut s = String::new();
        match self {
            ClientMessage::Plate { plate, timestamp } => {
                s.append("Plate { plate: ");
                s.append(plate.debug_text().as_str());
                s.append(", timestamp: ");
                push_decimal(&mut s, *timestamp as u64);
                s.append(" }");
            },
            ClientMessage::WantHeartbeat { interval } => {
                s.append("WantHeartbeat { interval: ");
                push_decimal(&mut s, *interval as u64);
                s.append(" }");
            },
            ClientMessage::IAmCamera { road, mile, limit } => {
                s.append("IAmCamera { road: ");
                push_decimal(&mut s, *road as u64);
                s.append(", mile: ");
                push_decimal(&mut s, *mile as u64);
                s.append(", limit: ");
                push_decimal(&mut s, *limit as u64);
                s.append(" }");
            },
            ClientMessage::IAmDispatcher { roads } => {
                s.append("IAmDispatcher { roads: ");
                s.append(roads.debug_text().as_str());
                s.append(" }");
            },
        }
        assert(s@ =~= printed(self@));
        s
    }
}

/// Messages sent back from the server to the connected devices.
#[derive(Clone, Copy, PartialEq, Eq)]
pub enum ServerMessage {
    // 0x10
    Error { msg: LPString },
    // 0x21
    Ticket {
        plate: LPString,
        road: u16,
        mile1: u16,
        timestamp1: u32,
        mile2: u16,
        timestamp2: u32,
        speed: u16,
    },
    // 0x41
    Heartbeat,
}

impl View for ServerMessage {
    type V = Seq<u8>;

    /// The message as it is sent.
    open spec fn view(&self) -> Seq<u8> {
        match *self {
            ServerMessage::Error { msg } => seq![0x10u8] + prefixed(msg@),
            ServerMessage::Ticket {
                plate,
                road,
                mile1,
                timestamp1,
                mile2,
                timestamp2,
                speed,
            } => seq![0x21u8] + prefixed(plate@) + be16(road) + be16(mile1) + be32(timestamp1)
                + be16(mile2) + be32(timestamp2) + be16(speed),
            ServerMessage::Heartbeat => seq![0x41u8],
        }
    }
}

impl ServerMessage {
    /// Writes the message behind what has been written.
    pub fn write(&self, w: &mut Vec<u8>)
        ensures
            final(w)@ == old(w)@ + self@,
    {
        match self {
            ServerMessage::Heartbeat => {
                w.push(0x41);
            },
            ServerMessage::Error { msg } => {
                w.push(0x10);
                msg.write(w);
            },
            ServerMessage::Ticket {
                plate,
                road,
                mile1,
                timestamp1,
                mile2,
                timestamp2,
                speed,
            } => {
                w.push(0x21);
                plate.write(w);
                push_u16(w, *road);
                push_u16(w, *mile1);
                push_u32(w, *timestamp1);
                push_u16(w, *mile2);
                push_u32(w, *timestamp2);
                push_u16(w, *speed);
            },
        }
        assert(w@ =~= old(w)@ + self@);
    }
}

/// What an attempt to read a message from a buffer finds.
pub enum Parsed {
    /// A message, with its length in bytes.
    Message(ClientMessage, usize),
    /// No message or a partial message.
    Partial,
    /// A byte that starts no message.
    Illegal(u8),
}

impl View for Parsed {
    type V = Front;

    open spec fn view(&self) -> Front {
        match self {
            Parsed::Message(m, n) => Front::Message(m@, *n as int),
            Parsed::Partial => Front::Partial,
            Parsed::Illegal(b) => Front::Illegal(*b),
        }
    }
}

/// Reads the roads of an announcement, as many as are kept.
fn read_roads(b: &[u8], n: usize) -> (r: LPU16Array)
    requires
        2 + 2 * n <= b@.len(),
        n <= 255,
    ensures
        r@ == u16s_at(
            b@,
            2,
            if n > LPU16ARR_LEN {
                LPU16ARR_LEN as nat
            } else {
                n as nat
            },
        ),
{
    let mut roads: Vec<u16> = Vec::new();
    let mut i: usize = 0;
    while i < n
        invariant
            i <= n,
            n <= 255,
            2 + 2 * n <= b@.len(),
            roads@ == u16s_at(b@, 2, i as nat),
        decreases n - i,
    {
        roads.push(get_u16(b, 2 + 2 * i));
        i = i + 1;
        assert(roads@ =~= u16s_at(b@, 2, i as nat));
    }
    let r = LPU16Array::from(roads.as_slice());
    assert(r@ =~= u16s_at(
        b@,
        2,
        if n > LPU16ARR_LEN {
            LPU16ARR_LEN as nat
        } else {
            n as nat
        },
    ));
    r
}

/// Reads the message at the front of a buffer.
pub fn parse(b: &[u8]) -> (r: Parsed)
    ensures
        r@ == front(b@, LPU16ARR_LEN as nat),
{
    if b.len() == 0 {
        return Parsed::Partial;
    }
    let msg_type: u8 = b[0];
    if msg_type == 0x20 {
        if b.len() < 2 {
            return Parsed::Partial;
        }
        let n: usize = b[1] as usize;
        if b.len() < 6 + n {
            return Parsed::Partial;
        }
        let plate = LPString::from(&b[2..2 + n]);
        let timestamp: u32 = get_u32(b, 2 + n);
        Parsed::Message(ClientMessage::Plate { plate, timestamp }, 6 + n)
    } else if msg_type == 0x40 {
        if b.len() < 5 {
            return Parsed::Partial;
        }
        Parsed::Message(ClientMessage::WantHeartbeat { interval: get_u32(b, 1) }, 5)
    } else if msg_type == 0x80 {
        if b.len() < 7 {
            return Parsed::Partial;
        }
        let road: u16 = get_u16(b, 1);
        let mile: u16 = get_u16(b, 3);
        let limit: u16 = get_u16(b, 5);
        Parsed::Message(ClientMessage::IAmCamera { road, mile, limit }, 7)
    } else if msg_type == 0x81 {
        if b.len() < 2 {
            return Parsed::Partial;
        }
        let n: usize = b[1] as usize;
        if b.len() < 2 + 2 * n {
            return Parsed::Partial;
        }
        Parsed::Message(ClientMessage::IAmDispatcher { roads: read_roads(b, n) }, 2 + 2 * n)
    } else {
        Parsed::Illegal(msg_type)
    }
}

/// The reading side of a connection: what has arrived and has not been taken.
pub struct IOPair {
    buffer: [u8; IO_BUFF_SIZE],
    write_idx: usize,
}

impl View for IOPair {
    type V = Seq<u8>;

    closed spec fn view(&self) -> Seq<u8> {
        self.buffer@.take(self.write_idx as int)
    }
}

impl IOPair {
    #[verifier::type_invariant]
    spec fn inside(&self) -> bool {
        self.write_idx <= IO_BUFF_SIZE
    }

    /// A connection on which nothing has arrived.
    pub fn new() -> (r: IOPair)
        ensures
            r@.len() == 0,
    {
        IOPair { buffer: [0u8; IO_BUFF_SIZE], write_idx: 0 }
    }

    /// How many more bytes the buffer can hold.
    pub fn room(&self) -> (r: usize)
        ensures
            r + self@.len() == IO_BUFF_SIZE,
    {
        proof {
            use_type_invariant(self);
        }
        IO_BUFF_SIZE - self.write_idx
    }

    /// Attempt to read a ClientMessage from what has arrived. Where there is
    /// none, more has to arrive first.
    pub fn read(&mut self) -> (r: Result<Option<ClientMessage>, Error>)
        ensures
            match front(old(self)@, LPU16ARR_LEN as nat) {
                Front::Message(m, n) => {
                    &&& r matches Ok(Some(msg)) && msg@ == m
                    &&& final(self)@ == old(self)@.skip(n)
                },
                Front::Partial => r == Ok::<Option<ClientMessage>, Error>(None) && final(self)@
                    == old(self)@,
                Front::Illegal(b) => {
                    &&& r matches Err(Error::ProtocolError(text)) && text@
                        == "illegal message type: "@ + in_hex(b)
                    &&& final(self)@ == old(self)@
                },
            },
    {
        proof {
            use_type_invariant(&*self);
            law_later_bytes_change_nothing(self@, Seq::empty(), LPU16ARR_LEN as nat);
        }
        let ghost before = self@;
        match parse(&self.buffer[0..self.write_idx]) {
            Parsed::Message(msg, cpos) => {
                let extra: usize = self.write_idx - cpos;
                let mut buff = self.buffer;
                let mut i: usize = 0;
                while i < extra
                    invariant
                        i <= extra,
                        cpos + extra == self.write_idx,
                        self.write_idx <= IO_BUFF_SIZE,
                        before == self.buffer@.take(self.write_idx as int),
                        forall|j: int| 0 <= j < i ==> buff@[j] == before[cpos + j],
                    decreases extra - i,
                {
                    buff[i] = self.buffer[cpos + i];
                    i = i + 1;
                }
                *self = IOPair { buffer: buff, write_idx: extra };
                assert(self@ =~= before.skip(cpos as int));
                Ok(Some(msg))
            },
            Parsed::Partial => Ok(None),
            Parsed::Illegal(b) => {
                let mut text = String::from_str("illegal message type: ");
                push_hex(&mut text, b);
                Err(Error::ProtocolError(text))
            },
        }
    }

    /// Takes what a read has given. Nothing means that the client is gone, or
    /// that there was no room left to read into.
    pub fn receive(&mut self, bytes: &[u8]) -> (r: Result<(), Error>)
        requires
            old(self)@.len() + bytes@.len() <= IO_BUFF_SIZE,
        ensures
            final(self)@ == old(self)@ + bytes@,
            bytes@.len() > 0 ==> r is Ok,
            bytes@.len() == 0 && old(self)@.len() < IO_BUFF_SIZE ==> r == Err::<(), Error>(
                Error::Eof,
            ),
            bytes@.len() == 0 && old(self)@.len() == IO_BUFF_SIZE ==> (r matches Err(
                Error::ProtocolError(text),
            ) && text@ == "filled buffer w/o sending valid message"@),
    {
        proof {
            use_type_invariant(&*self);
        }
        if bytes.len() == 0 {
            assert(self@ + bytes@ =~= self@);
            if self.write_idx == IO_BUFF_SIZE {
                return Err(
                    Error::ProtocolError(
                        String::from_str("filled buffer w/o sending valid message"),
                    ),
                );
            }
            return Err(Error::Eof);
        }
        let ghost before = self@;
        let start: usize = self.write_idx;
        let mut buff = self.buffer;
        let mut i: usize = 0;
        while i < bytes.len()
            invariant
                i <= bytes@.len(),
                start + bytes@.len() <= IO_BUFF_SIZE,
                before.len() == start,
                forall|j: int| 0 <= j < start ==> buff@[j] == before[j],
                forall|j: int| 0 <= j < i ==> buff@[start + j] == bytes@[j],
            decreases bytes@.len() - i,
        {
            buff[start + i] = bytes[i];
            i = i + 1;
        }
        *self = IOPair { buffer: buff, write_idx: start + bytes.len() };
        assert(self@ =~= before + bytes@);
        Ok(())
    }

    /// Takes the error that a read has given: whether it can be tried again.
    pub fn failed(e: IoError) -> (r: Result<(), Error>)
        ensures
            r == if e.kind == IoKind::Interrupted || e.kind == IoKind::WouldBlock {
                Ok::<(), Error>(())
            } else {
                Err::<(), Error>(Error::IOError(e))
            },
    {
        if e.kind == IoKind::Interrupted || e.kind == IoKind::WouldBlock {
            Ok(())
        } else {
            Err(Error::IOError(e))
        }
    }
}

} // verus!
