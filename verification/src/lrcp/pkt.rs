//! Structs that hold a single UDP packet's worth of data.

use vstd::prelude::*;
use vstd::string::*;

use crate::bytes::{ascii, ascii_bytes, lemma_seek, lemma_seek_is, position, same, seek, SLASH};
use crate::text::{in_decimal, push_decimal};

verus! {

pub const BUFFER_SIZE: usize = 1024;

/// A buffer for storing session IDs.
#[derive(Clone, Copy, PartialEq, Eq, PartialOrd, Ord)]
pub struct IdField(pub [u8; 10]);

/// What is kept of a session id: its first ten bytes, with zeros behind a
/// shorter one.
pub open spec fn id_field(bytes: Seq<u8>) -> Seq<u8> {
    Seq::new(
        10,
        |i: int|
            if i < bytes.len() {
                bytes[i]
            } else {
                0
            },
    )
}

/// The digits of a session id, as numbers one after another, up to the first
/// zero byte.
pub open spec fn digits_from(field: Seq<u8>, from: int) -> Seq<char>
    decreases field.len() - from,
{
    if from < 0 || from >= field.len() || field[from] == 0 {
        Seq::empty()
    } else {
        in_decimal(
            if field[from] > 48 {
                (field[from] - 48) as nat
            } else {
                0
            },
        ) + digits_from(field, from + 1)
    }
}

impl IdField {
    /// The field that keeps the first ten of `bytes`.
    pub fn from(bytes: &[u8]) -> (r: IdField)
        ensures
            r.0@ == id_field(bytes@),
    {
        let mut inner = [0u8; 10];
        let mut i: usize = 0;
        while i < 10 && i < bytes.len()
            invariant
                i <= 10,
                i <= bytes@.len(),
                forall|j: int| 0 <= j < i ==> inner@[j] == bytes@[j],
                forall|j: int| i <= j < 10 ==> inner@[j] == 0,
            decreases 10 - i,
        {
            inner[i] = bytes[i];
            i = i + 1;
        }
        assert(inner@ =~= id_field(bytes@));
        IdField(inner)
    }

    pub fn as_bytes(&self) -> (r: &[u8])
        ensures
            r@ == self.0@,
            r@.len() == 10,
    {
        self.0.as_slice()
    }

    /// The id as a text, in brackets.
    pub fn to_text(&self) -> (r: String)
        ensures
            r@ == "["@ + digits_from(self.0@, 0) + "]"@,
    {
        let mut s = String::from_str("[");
        let mut i: usize = 0;
        assert(s@ + digits_from(self.0@, 0) =~= "["@ + digits_from(self.0@, 0));
        while i < 10 && self.0[i] > 0
            invariant
                i <= 10,
                s@ + digits_from(self.0@, i as int) == "["@ + digits_from(self.0@, 0),
            decreases 10 - i,
        {
            let n: u8 = self.0[i];
            let d: u64 = if n > 48 {
                (n - 48) as u64
            } else {
                0
            };
            let ghost had = s@;
            push_decimal(&mut s, d);
            assert(s@ + digits_from(self.0@, i + 1) =~= had + digits_from(self.0@, i as int));
            i = i + 1;
        }
        assert(s@ =~= "["@ + digits_from(self.0@, 0));
        s.append("]");
        s
    }

    /// How the id prints among other values: its name, and its text.
    pub fn debug_text(&self) -> (r: String)
        ensures
            r@ == "IdField("@ + ("["@ + digits_from(self.0@, 0) + "]"@) + ")"@,
    {
        let mut s = String::from_str("IdField(");
        s.append(self.to_text().as_str());
        s.append(")");
        s
    }
}

/// A buffer for reading/writing packets.
///
/// Messages can't be more than 1000 bytes long, so they all fit.
pub type Buffer = [u8; BUFFER_SIZE];

/// Convenience function for returning an empty buffer.
pub fn buffer() -> (r: Buffer)
    ensures
        r@ == Seq::new(BUFFER_SIZE as nat, |i: int| 0u8),
{
    let r = [0u8; BUFFER_SIZE];
    assert(r@ =~= Seq::new(BUFFER_SIZE as nat, |i: int| 0u8));
    r
}

/// Type of message contained in a packet.
#[derive(Clone, Copy, Debug, PartialEq, Eq, Structural)]
pub enum Msg {
    Connect,
    Data,
    Ack,
    Close,
}

/// How a packet of each type spells it.
pub open spec fn spelling(m: Msg) -> Seq<u8> {
    match m {
        Msg::Connect => ascii("connect"@),
        Msg::Data => ascii("data"@),
        Msg::Ack => ascii("ack"@),
        Msg::Close => ascii("close"@),
    }
}

/// The type with a given spelling.
pub open spec fn spelled(name: Seq<u8>) -> Option<Msg> {
    if name == spelling(Msg::Data) {
        Some(Msg::Data)
    } else if name == spelling(Msg::Ack) {
        Some(Msg::Ack)
    } else if name == spelling(Msg::Connect) {
        Some(Msg::Connect)
    } else if name == spelling(Msg::Close) {
        Some(Msg::Close)
    } else {
        None
    }
}

/// Data packet received.
pub struct Gram<A> {
    pub bytes: Buffer,
    pub id: IdField,
    pub msg: Msg,
    pub start: usize,
    pub end: usize,
    pub addr: A,
}

/// What a packet starts with: its type, its id, and where the rest starts.
pub struct Head {
    pub msg: Msg,
    pub id: Seq<u8>,
    pub start: int,
}

/// What a packet starts with: a type and an id, with slashes around them.
pub open spec fn head(bytes: Seq<u8>) -> Option<Head> {
    let n = seek(bytes, SLASH, 1);
    let m = seek(bytes, SLASH, n + 1);
    if bytes[0] != SLASH || n >= bytes.len() || m >= bytes.len() {
        None
    } else {
        match spelled(bytes.subrange(1, n)) {
            Some(msg) => Some(Head { msg, id: id_field(bytes.subrange(n + 1, m)), start: m + 1 }),
            None => None,
        }
    }
}

impl<A> Gram<A> {
    /// Takes a packet apart; `end` is where its data ends.
    pub fn new(bytes: Buffer, end: usize, addr: A) -> (r: Option<Gram<A>>)
        ensures
            match r {
                Some(g) => {
                    &&& head(bytes@) == Some(
                        Head { msg: g.msg, id: g.id.0@, start: g.start as int },
                    )
                    &&& g.start <= BUFFER_SIZE
                    &&& g.bytes == bytes
                    &&& g.end == end
                    &&& g.addr == addr
                },
                None => head(bytes@) is None,
            },
    {
        let all = bytes.as_slice();
        if all[0] != SLASH {
            return None;
        }
        let n: usize = match position(all, SLASH, 1) {
            Some(n) => n,
            None => return None,
        };
        proof {
            lemma_seek(bytes@, SLASH, 1);
        }
        let m: usize = match position(all, SLASH, n + 1) {
            Some(m) => m,
            None => return None,
        };
        proof {
            lemma_seek(bytes@, SLASH, n + 1);
            reveal_strlit("connect");
            reveal_strlit("data");
            reveal_strlit("ack");
            reveal_strlit("close");
        }
        let name = &all[1..n];
        let msg = if same(name, ascii_bytes("data")) {
            Msg::Data
        } else if same(name, ascii_bytes("ack")) {
            Msg::Ack
        } else if same(name, ascii_bytes("connect")) {
            Msg::Connect
        } else if same(name, ascii_bytes("close")) {
            Msg::Close
        } else {
            return None;
        };
        let id = IdField::from(&all[n + 1..m]);
        Some(Gram { bytes, id, msg, start: m + 1, end, addr })
    }

    /// What follows the type and the id.
    pub fn data(&self) -> (r: &[u8])
        requires
            self.start <= self.end <= BUFFER_SIZE,
        ensures
            r@ == self.bytes@.subrange(self.start as int, self.end as int),
    {
        &self.bytes[self.start..self.end]
    }
}

/// A packet that is spelled as the protocol says is taken apart into what was
/// put into it, if its id is not too long to be kept whole.
pub proof fn law_packets_are_taken_apart(m: Msg, id: Seq<u8>, rest: Seq<u8>)
    requires
        !id.contains(SLASH),
    ensures
        ({
            let b = seq![SLASH] + spelling(m) + seq![SLASH] + id + seq![SLASH] + rest;
            let start = 3 + spelling(m).len() + id.len();
            &&& head(b) == Some(Head { msg: m, id: id_field(id), start: start as int })
            &&& b.skip(start as int) == rest
        }),
        id.len() <= 10 ==> id_field(id).take(id.len() as int) == id,
{
    reveal_strlit("connect");
    reveal_strlit("data");
    reveal_strlit("ack");
    reveal_strlit("close");
    let name = spelling(m);
    let b = seq![SLASH] + name + seq![SLASH] + id + seq![SLASH] + rest;
    let k = name.len() as int;
    let n = id.len() as int;
    assert(b.subrange(1, 1 + k) =~= name);
    assert forall|j: int| 1 <= j < 1 + k implies b[j] != SLASH by {
        assert(b[j] == name[j - 1]);
    }
    lemma_seek_is(b, SLASH, 1, 1 + k);
    assert(b.subrange(2 + k, 2 + k + n) =~= id);
    assert forall|j: int| 2 + k <= j < 2 + k + n implies b[j] != SLASH by {
        assert(b[j] == id[j - 2 - k]);
    }
    lemma_seek_is(b, SLASH, 2 + k, 2 + k + n);
    assert(spelling(Msg::Ack)[0] == 97);
    assert(spelling(Msg::Close)[0] == 99);
    assert(spelling(Msg::Connect)[0] == 99);
    assert(spelling(Msg::Data)[0] == 100);
    assert(spelling(Msg::Close).len() == 5);
    assert(spelling(Msg::Connect).len() == 7);
    assert(spelled(name) == Some(m));
    assert(b.skip(3 + k + n) =~= rest);
    if n <= 10 {
        assert(id_field(id).take(n) =~= id);
    }
}

/// How the type of a packet is spelled.
pub open spec fn letters(m: Msg) -> Seq<u8> {
    match m {
        Msg::Connect => seq![99u8, 111, 110, 110, 101, 99, 116],
        Msg::Data => seq![100u8, 97, 116, 97],
        Msg::Ack => seq![97u8, 99, 107],
        Msg::Close => seq![99u8, 108, 111, 115, 101],
    }
}

/// What a packet is taken apart into: the type between its first slash and its
/// second, and the first ten bytes of what stands between its second and its
/// third, with zeros behind a shorter id. The data starts after that.
pub proof fn law_what_is_taken_apart(bytes: Seq<u8>)
    requires
        bytes.len() > 0,
    ensures
        head(bytes) matches Some(h) ==> {
            let n = 1 + letters(h.msg).len() as int;
            let m = h.start - 1;
            &&& bytes[0] == 47
            &&& n < m < bytes.len()
            &&& bytes.subrange(1, n) == letters(h.msg)
            &&& bytes[n] == 47
            &&& bytes[m] == 47
            &&& forall|k: int| n < k < m ==> bytes[k] != 47
            &&& h.id.len() == 10
            &&& forall|i: int|
                0 <= i < 10 ==> #[trigger] h.id[i] == if n + 1 + i < m {
                    bytes[n + 1 + i]
                } else {
                    0
                }
        },
{
    reveal_strlit("connect");
    reveal_strlit("data");
    reveal_strlit("ack");
    reveal_strlit("close");
    lemma_seek(bytes, SLASH, 1);
    let n = seek(bytes, SLASH, 1);
    if n < bytes.len() {
        lemma_seek(bytes, SLASH, n + 1);
    }
    assert(spelling(Msg::Connect) =~= letters(Msg::Connect));
    assert(spelling(Msg::Data) =~= letters(Msg::Data));
    assert(spelling(Msg::Ack) =~= letters(Msg::Ack));
    assert(spelling(Msg::Close) =~= letters(Msg::Close));
    if let Some(h) = head(bytes) {
        assert(bytes.subrange(1, n).len() == n - 1);
    }
}

/// What is spelled as the protocol says is taken apart.
pub proof fn law_well_spelled_packets_are_taken_apart(m: Msg, id: Seq<u8>, rest: Seq<u8>)
    requires
        forall|k: int| 0 <= k < id.len() ==> id[k] != 47,
    ensures
        ({
            let b = seq![47u8] + letters(m) + seq![47u8] + id + seq![47u8] + rest;
            &&& head(b) is Some
            &&& head(b)->Some_0.msg == m
            &&& head(b)->Some_0.start == 3 + letters(m).len() + id.len()
        }),
{
    reveal_strlit("connect");
    reveal_strlit("data");
    reveal_strlit("ack");
    reveal_strlit("close");
    assert(spelling(m) =~= letters(m));
    assert(!id.contains(SLASH));
    law_packets_are_taken_apart(m, id, rest);
}

/// How an id prints: each of its bytes up to the first zero, as the number that
/// is left when that of the digit zero is taken from it.
pub proof fn law_digits_of_ids(field: Seq<u8>, i: int)
    requires
        0 <= i <= field.len(),
    ensures
        i == field.len() || field[i] == 0 ==> digits_from(field, i).len() == 0,
        i < field.len() && field[i] >= 48 ==> digits_from(field, i) == in_decimal(
            (field[i] - 48) as nat,
        ) + digits_from(field, i + 1),
        i < field.len() && 0 < field[i] < 48 ==> digits_from(field, i) == in_decimal(0)
            + digits_from(field, i + 1),
{
}

} // verus!
