//! Reading the 9-byte message format.

use vstd::prelude::*;
use vstd::string::*;

use crate::bytes::{be32, get_u32, lemma_u32_reads_back, push_u32, u32_at};
use crate::text::{in_decimal, push_decimal};

verus! {

/// `I`
pub const INSERT: u8 = 73;

/// `Q`
pub const QUERY: u8 = 81;

/// Represents the types of messages expected from clients.
#[derive(Clone, Copy, Debug, PartialEq, Eq, Structural)]
pub enum Msg {
    Insert { timestamp: i32, price: i32 },
    Query { begin: i32, end: i32 },
}

/// The number that four bytes are the two's complement of.
pub open spec fn signed(n: u32) -> i32 {
    if n < 0x8000_0000 {
        n as i32
    } else {
        (n - 0x1_0000_0000) as i32
    }
}

/// The two's complement of a number.
pub open spec fn complement(n: i32) -> u32 {
    if n >= 0 {
        n as u32
    } else {
        (n + 0x1_0000_0000) as u32
    }
}

/// The number that four bytes are the two's complement of.
fn to_signed(n: u32) -> (r: i32)
    ensures
        r == signed(n),
{
    if n < 0x8000_0000 {
        n as i32
    } else {
        (n - 0x8000_0000) as i32 + i32::MIN
    }
}

/// A number as it is sent: two's complement, most significant byte first.
pub fn to_bytes(n: i32) -> (r: Vec<u8>)
    ensures
        r@ == be32(complement(n)),
{
    let c: u32 = if n >= 0 {
        n as u32
    } else {
        (n + i32::MAX + 1) as u32 + 0x8000_0000
    };
    let mut r: Vec<u8> = Vec::new();
    push_u32(&mut r, c);
    assert(r@ =~= be32(complement(n)));
    r
}

/// What an attempt to read nine bytes can give instead.
pub enum ReadFailure {
    /// They ended too early.
    Eof,
    /// There was an error, with this text.
    Other(String),
}

/// The message that nine bytes are, or the type that is none.
pub open spec fn decoded(b: Seq<u8>) -> Result<Msg, u8> {
    let x = signed(u32_at(b, 1));
    let y = signed(u32_at(b, 5));
    if b[0] == INSERT {
        Ok(Msg::Insert { timestamp: x, price: y })
    } else if b[0] == QUERY {
        Ok(Msg::Query { begin: x, end: y })
    } else {
        Err(b[0])
    }
}

/// How a client writes a message.
pub open spec fn encoded(m: Msg) -> Seq<u8> {
    match m {
        Msg::Insert { timestamp, price } => seq![INSERT] + be32(complement(timestamp)) + be32(
            complement(price),
        ),
        Msg::Query { begin, end } => seq![QUERY] + be32(complement(begin)) + be32(complement(end)),
    }
}

impl Msg {
    /// Takes a `Msg` out of what was read.
    ///
    /// Returns Ok(None) upon reaching EOF.
    pub fn read_from(read: Result<[u8; 9], ReadFailure>) -> (r: Result<Option<Msg>, String>)
        ensures
            match read {
                Err(ReadFailure::Eof) => r == Ok::<Option<Msg>, String>(None),
                Err(ReadFailure::Other(e)) => r matches Err(text) && text@ == "read error: "@ + e@,
                Ok(buff) => match decoded(buff@) {
                    Ok(m) => r == Ok::<Option<Msg>, String>(Some(m)),
                    Err(x) => r matches Err(text) && text@ == "unrecognized type: "@ + in_decimal(
                        x as nat,
                    ),
                },
            },
    {
        let buff = match read {
            Ok(buff) => buff,
            Err(ReadFailure::Eof) => {
                return Ok(None);
            },
            Err(ReadFailure::Other(e)) => {
                let mut text = String::from_str("read error: ");
                text.append(e.as_str());
                return Err(text);
            },
        };
        let a: i32 = to_signed(get_u32(buff.as_slice(), 1));
        let b: i32 = to_signed(get_u32(buff.as_slice(), 5));
        if buff[0] == INSERT {
            Ok(Some(Msg::Insert { timestamp: a, price: b }))
        } else if buff[0] == QUERY {
            Ok(Some(Msg::Query { begin: a, end: b }))
        } else {
            let mut text = String::from_str("unrecognized type: ");
            push_decimal(&mut text, buff[0] as u64);
            Err(text)
        }
    }
}

/// What a client writes is read as it was meant.
pub proof fn law_messages_read_back(m: Msg)
    ensures
        encoded(m).len() == 9,
        decoded(encoded(m)) == Ok::<Msg, u8>(m),
{
    let b = encoded(m);
    let (x, y) = match m {
        Msg::Insert { timestamp, price } => (timestamp, price),
        Msg::Query { begin, end } => (begin, end),
    };
    assert(b.subrange(1, 5) =~= be32(complement(x)));
    assert(b.subrange(5, 9) =~= be32(complement(y)));
    lemma_u32_reads_back(b, 1, complement(x));
    lemma_u32_reads_back(b, 5, complement(y));
}

/// Nine bytes are a message by their first, and hold two numbers, most
/// significant byte first, in two's complement.
pub proof fn law_nine_bytes(b: Seq<u8>)
    requires
        b.len() == 9,
    ensures
        ({
            let u = b[1] * 16777216 + b[2] * 65536 + b[3] * 256 + b[4];
            let v = b[5] * 16777216 + b[6] * 65536 + b[7] * 256 + b[8];
            let x = if b[1] < 128 {
                u
            } else {
                u - 4294967296
            };
            let y = if b[5] < 128 {
                v
            } else {
                v - 4294967296
            };
            if b[0] == 73 {
                decoded(b) matches Ok(Msg::Insert { timestamp, price }) && timestamp == x && price
                    == y
            } else if b[0] == 81 {
                decoded(b) matches Ok(Msg::Query { begin, end }) && begin == x && end == y
            } else {
                decoded(b) == Err::<Msg, u8>(b[0])
            }
        }),
{
}

/// The four bytes of a number that is sent stand for it.
pub proof fn law_four_bytes(n: i32)
    ensures
        ({
            let b = be32(complement(n));
            let u = b[0] * 16777216 + b[1] * 65536 + b[2] * 256 + b[3];
            &&& b.len() == 4
            &&& n == if b[0] < 128 {
                u
            } else {
                u - 4294967296
            }
        }),
{
}

} // verus!
