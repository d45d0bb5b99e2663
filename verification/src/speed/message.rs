//! Reading messages from a stream of bytes, with room for every array.

use vstd::prelude::*;
use vstd::string::*;

use crate::bytes::{u16_at, u32_at, ByteSource};
pub use crate::speed::bio::{LPString, ServerMessage};
use crate::speed::error::Error;
use crate::speed::wire::{front, u16s_at, Front, Said};
use crate::text::{in_hex, push_hex};

verus! {

/// The IAmDispatcher message sends a length-prefixed array of u16s.
///
/// We have to read it, but we never have to write one. It functions
/// much like the LPString.
#[derive(Clone, Copy, Debug, PartialEq, Eq)]
pub struct LPU16Array {
    data: [u16; 256],
    length: usize,
}

impl View for LPU16Array {
    type V = Seq<u16>;

    closed spec fn view(&self) -> Seq<u16> {
        self.data@.take(self.length as int)
    }
}

/// The next byte, or the end.
fn read_u8(r: &mut ByteSource) -> (res: Result<u8, Error>)
    ensures
        match res {
            Ok(b) => old(r)@.len() > 0 && b == old(r)@[0] && final(r)@ == old(r)@.skip(1),
            Err(e) => e is Eof && old(r)@.len() == 0 && final(r)@.len() == 0,
        },
{
    match r.next() {
        Some(b) => Ok(b),
        None => Err(Error::Eof),
    }
}

/// The next u16, or the end.
fn read_u16(r: &mut ByteSource) -> (res: Result<u16, Error>)
    ensures
        match res {
            Ok(n) => old(r)@.len() >= 2 && n == u16_at(old(r)@, 0) && final(r)@ == old(r)@.skip(2),
            Err(e) => e is Eof && old(r)@.len() < 2 && final(r)@.len() == 0,
        },
{
    let ghost b = r@;
    let hi: u8 = match read_u8(r) {
        Ok(hi) => hi,
        Err(e) => return Err(e),
    };
    let lo: u8 = match read_u8(r) {
        Ok(lo) => lo,
        Err(e) => return Err(e),
    };
    assert(r@ =~= b.skip(2));
    Ok(hi as u16 * 256 + lo as u16)
}

/// The next u32, or the end.
fn read_u32(r: &mut ByteSource) -> (res: Result<u32, Error>)
    ensures
        match res {
            Ok(n) => old(r)@.len() >= 4 && n == u32_at(old(r)@, 0) && final(r)@ == old(r)@.skip(4),
            Err(e) => e is Eof && old(r)@.len() < 4 && final(r)@.len() == 0,
        },
{
    let ghost b = r@;
    let hi: u16 = match read_u16(r) {
        Ok(hi) => hi,
        Err(e) => return Err(e),
    };
    assert(u16_at(r@, 0) == u16_at(b, 2) || b.len() < 4);
    let lo: u16 = match read_u16(r) {
        Ok(lo) => lo,
        Err(e) => return Err(e),
    };
    assert(r@ =~= b.skip(4));
    Ok(hi as u32 * 65536 + lo as u32)
}

impl LPString {
    /// Read an LPString from the given source.
    pub fn read(r: &mut ByteSource) -> (res: Result<LPString, Error>)
        ensures
            match res {
                Ok(s) => {
                    &&& s.padded()
                    &&& old(r)@.len() > old(r)@[0]
                    &&& s@ == old(r)@.subrange(1, 1 + old(r)@[0])
                    &&& final(r)@ == old(r)@.skip(1 + old(r)@[0])
                },
                Err(e) => {
                    &&& e is Eof
                    &&& old(r)@.len() == 0 || old(r)@.len() <= old(r)@[0]
                    &&& final(r)@.len() == 0
                },
            },
    {
        let ghost b = r@;
        let length: usize = match read_u8(r) {
            Ok(n) => n as usize,
            Err(e) => return Err(e),
        };
        let mut bytes: Vec<u8> = Vec::new();
        let mut n: usize = 0;
        assert(bytes@ =~= b.subrange(1, 1));
        while n < length
            invariant
                n <= length <= 255,
                b == old(r)@,
                b.len() > 0,
                length == b[0],
                1 + n <= b.len(),
                r@ == b.skip(1 + n),
                bytes@ == b.subrange(1, 1 + n),
            decreases length - n,
        {
            match read_u8(r) {
                Ok(x) => {
                    bytes.push(x);
                },
                Err(e) => return Err(e),
            }
            n = n + 1;
            assert(r@ =~= b.skip(1 + n));
            assert(bytes@ =~= b.subrange(1, 1 + n));
        }
        Ok(LPString::from(bytes.as_slice()))
    }
}

impl LPU16Array {
    /// The length is that of a part of the array, and the rest is zero.
    #[verifier::type_invariant]
    spec fn padded(&self) -> bool {
        &&& self.length <= 256
        &&& forall|i: int| self.length <= i < 256 ==> #[trigger] self.data@[i] == 0
    }

    /// The array that holds the given values.
    pub fn from(a: &[u16]) -> (r: LPU16Array)
        requires
            a@.len() <= 255,
        ensures
            r@ == a@,
    {
        let mut data = [0u16; 256];
        let mut i: usize = 0;
        while i < a.len()
            invariant
                i <= a@.len() <= 255,
                forall|j: int| 0 <= j < i ==> data@[j] == a@[j],
                forall|j: int| i <= j < 256 ==> #[trigger] data@[j] == 0,
            decreases a@.len() - i,
        {
            data[i] = a[i];
            i = i + 1;
        }
        let r = LPU16Array { data, length: a.len() };
        assert(r@ =~= a@);
        r
    }

    /// Read an LPU16Array from the given source.
    pub fn read(r: &mut ByteSource) -> (res: Result<LPU16Array, Error>)
        ensures
            match res {
                Ok(a) => {
                    &&& old(r)@.len() > 2 * old(r)@[0]
                    &&& a@ == u16s_at(old(r)@, 1, old(r)@[0] as nat)
                    &&& final(r)@ == old(r)@.skip(1 + 2 * old(r)@[0])
                },
                Err(e) => {
                    &&& e is Eof
                    &&& old(r)@.len() == 0 || old(r)@.len() <= 2 * old(r)@[0]
                    &&& final(r)@.len() == 0
                },
            },
    {
        let ghost b = r@;
        let length: usize = match read_u8(r) {
            Ok(n) => n as usize,
            Err(e) => return Err(e),
        };
        let mut data: Vec<u16> = Vec::new();
        let mut n: usize = 0;
        assert(data@ =~= u16s_at(b, 1, 0));
        while n < length
            invariant
                n <= length <= 255,
                b == old(r)@,
                b.len() > 0,
                length == b[0],
                1 + 2 * n <= b.len(),
                r@ == b.skip(1 + 2 * n),
                data@ == u16s_at(b, 1, n as nat),
            decreases length - n,
        {
            let ghost left = r@;
            match read_u16(r) {
                Ok(x) => {
                    assert(x == u16_at(b, 1 + 2 * n));
                    data.push(x);
                },
                Err(e) => return Err(e),
            }
            n = n + 1;
            assert(r@ =~= b.skip(1 + 2 * n));
            assert(data@ =~= u16s_at(b, 1, n as nat));
        }
        Ok(LPU16Array::from(data.as_slice()))
    }

    /// Expose the set values in the array.
    pub fn as_slice(&self) -> (r: &[u16])
        ensures
            r@ == self@,
    {
        proof {
            use_type_invariant(self);
        }
        &self.data[0..self.length]
    }
}

/// Messages that the server might receive.
#[derive(Clone, Copy, PartialEq, Eq)]
pub enum ClientMessage {
    // 0x20
    Plate { plate: LPString, timestamp: u32 },
    // 0x40
    WantHeartbeat { interval: u32 },
    // 0x80
    IAmCamera { road: u16, mile: u16, limit: u16 },
    // 0x81
    IAmDispatcher { roads: LPU16Array },
}

impl View for ClientMessage {
    type V = Said;

    open spec fn view(&self) -> Said {
        match *self {
            ClientMessage::Plate { plate, timestamp } => Said::Plate { plate: plate@, timestamp },
            ClientMessage::WantHeartbeat { interval } => Said::WantHeartbeat { interval },
            ClientMessage::IAmCamera { road, mile, limit } => Said::IAmCamera {
                road,
                mile,
                limit,
            },
            ClientMessage::IAmDispatcher { roads } => Said::IAmDispatcher { roads: roads@ },
        }
    }
}

impl ClientMessage {
    /// Read a ClientMessage from the given source. Where it ends too early,
    /// nothing is left of it.
    pub fn read(r: &mut ByteSource) -> (res: Result<ClientMessage, Error>)
        ensures
            match front(old(r)@, 256) {
                Front::Message(m, n) => {
                    &&& res matches Ok(msg) && msg@ == m
                    &&& final(r)@ == old(r)@.skip(n)
                },
                Front::Partial => {
                    &&& res == Err::<ClientMessage, Error>(Error::Eof)
                    &&& final(r)@.len() == 0
                },
                Front::Illegal(b) => {
                    &&& res matches Err(Error::ClientError(text)) && text@ == "illegal type: "@
                        + in_hex(b)
                    &&& final(r)@ == old(r)@.skip(1)
                },
            },
    {
        let ghost b = r@;
        let msg_type: u8 = match read_u8(r) {
            Ok(t) => t,
            Err(e) => return Err(e),
        };
        if msg_type == 0x20 {
            let plate = match LPString::read(r) {
                Ok(plate) => plate,
                Err(e) => return Err(e),
            };
            proof {
                assert(plate@ =~= b.subrange(2, 2 + b[1]));
                assert(r@ =~= b.skip(2 + b[1]));
            }
            let timestamp: u32 = match read_u32(r) {
                Ok(n) => n,
                Err(e) => return Err(e),
            };
            proof {
                assert(timestamp == u32_at(b, 2 + b[1]));
                assert(r@ =~= b.skip(6 + b[1]));
            }
            Ok(ClientMessage::Plate { plate, timestamp })
        } else if msg_type == 0x40 {
            let interval: u32 = match read_u32(r) {
                Ok(n) => n,
                Err(e) => return Err(e),
            };
            proof {
                assert(interval == u32_at(b, 1));
                assert(r@ =~= b.skip(5));
            }
            Ok(ClientMessage::WantHeartbeat { interval })
        } else if msg_type == 0x80 {
            let road: u16 = match read_u16(r) {
                Ok(n) => n,
                Err(e) => return Err(e),
            };
            assert(road == u16_at(b, 1));
            assert(r@ =~= b.skip(3));
            let mile: u16 = match read_u16(r) {
                Ok(n) => n,
                Err(e) => return Err(e),
            };
            assert(mile == u16_at(b, 3));
            assert(r@ =~= b.skip(5));
            let limit: u16 = match read_u16(r) {
                Ok(n) => n,
                Err(e) => return Err(e),
            };
            assert(limit == u16_at(b, 5));
            assert(r@ =~= b.skip(7));
            Ok(ClientMessage::IAmCamera { road, mile, limit })
        } else if msg_type == 0x81 {
            let roads = match LPU16Array::read(r) {
                Ok(roads) => roads,
                Err(e) => return Err(e),
            };
            proof {
                assert(roads@ =~= u16s_at(b, 2, b[1] as nat));
                assert(r@ =~= b.skip(2 + 2 * b[1]));
            }
            Ok(ClientMessage::IAmDispatcher { roads })
        } else {
            let mut text = String::from_str("illegal type: ");
            push_hex(&mut text, msg_type);
            Err(Error::ClientError(text))
        }
    }
}

} // verus!
