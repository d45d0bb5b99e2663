//! The layout of messages on the wire.

use vstd::prelude::*;

use crate::bytes::{be16, be32, lemma_u16_reads_back, lemma_u32_reads_back, u16_at, u32_at};

verus! {

/// A byte string after its length in one byte.
pub open spec fn prefixed(s: Seq<u8>) -> Seq<u8> {
    seq![s.len() as u8] + s
}

/// What a message from a camera or a dispatcher says.
pub enum Said {
    Plate { plate: Seq<u8>, timestamp: u32 },
    WantHeartbeat { interval: u32 },
    IAmCamera { road: u16, mile: u16, limit: u16 },
    IAmDispatcher { roads: Seq<u16> },
}

/// What stands at the front of a byte string.
pub enum Front {
    /// A message, with its length in bytes.
    Message(Said, int),
    /// A part of a message, or nothing.
    Partial,
    /// A byte that starts no message.
    Illegal(u8),
}

/// The u16s that stand one after another from a position on.
pub open spec fn u16s_at(b: Seq<u8>, at: int, n: nat) -> Seq<u16> {
    Seq::new(n, |i: int| u16_at(b, at + 2 * i))
}

/// What stands at the front of `b`. Of an announcement of roads, the first
/// `cap` are kept.
pub open spec fn front(b: Seq<u8>, cap: nat) -> Front {
    if b.len() == 0 {
        Front::Partial
    } else if b[0] == 0x20 {
        if b.len() < 2 || b.len() < 6 + b[1] {
            Front::Partial
        } else {
            Front::Message(
                Said::Plate { plate: b.subrange(2, 2 + b[1]), timestamp: u32_at(b, 2 + b[1]) },
                6 + b[1],
            )
        }
    } else if b[0] == 0x40 {
        if b.len() < 5 {
            Front::Partial
        } else {
            Front::Message(Said::WantHeartbeat { interval: u32_at(b, 1) }, 5)
        }
    } else if b[0] == 0x80 {
        if b.len() < 7 {
            Front::Partial
        } else {
            Front::Message(
                Said::IAmCamera { road: u16_at(b, 1), mile: u16_at(b, 3), limit: u16_at(b, 5) },
                7,
            )
        }
    } else if b[0] == 0x81 {
        if b.len() < 2 || b.len() < 2 + 2 * b[1] {
            Front::Partial
        } else {
            Front::Message(
                Said::IAmDispatcher {
                    roads: u16s_at(
                        b,
                        2,
                        if b[1] > cap {
                            cap
                        } else {
                            b[1] as nat
                        },
                    ),
                },
                2 + 2 * b[1],
            )
        }
    } else {
        Front::Illegal(b[0])
    }
}

/// U16s, one after another.
pub open spec fn be16s(ns: Seq<u16>) -> Seq<u8>
    decreases ns.len(),
{
    if ns.len() == 0 {
        Seq::empty()
    } else {
        be16s(ns.drop_last()) + be16(ns.last())
    }
}

/// How a camera or a dispatcher writes a message.
pub open spec fn written(m: Said) -> Seq<u8> {
    match m {
        Said::Plate { plate, timestamp } => seq![0x20u8] + prefixed(plate) + be32(timestamp),
        Said::WantHeartbeat { interval } => seq![0x40u8] + be32(interval),
        Said::IAmCamera { road, mile, limit } => seq![0x80u8] + be16(road) + be16(mile) + be16(
            limit,
        ),
        Said::IAmDispatcher { roads } => seq![0x81u8, roads.len() as u8] + be16s(roads),
    }
}

/// Where u16s were written, they are read.
proof fn lemma_u16s_read_back(b: Seq<u8>, at: int, ns: Seq<u16>)
    requires
        0 <= at,
        at + 2 * ns.len() <= b.len(),
        b.subrange(at, at + 2 * ns.len()) == be16s(ns),
    ensures
        u16s_at(b, at, ns.len()) == ns,
    decreases ns.len(),
{
    if ns.len() > 0 {
        let k = ns.len() - 1;
        lemma_be16s_len(ns);
        lemma_be16s_len(ns.drop_last());
        let w = b.subrange(at, at + 2 * ns.len());
        assert(b.subrange(at, at + 2 * k) =~= w.subrange(0, 2 * k));
        assert(w.subrange(0, 2 * k) =~= be16s(ns.drop_last()));
        lemma_u16s_read_back(b, at, ns.drop_last());
        assert(b[at + 2 * k] == w[2 * k] && b[at + 2 * k + 1] == w[2 * k + 1]);
        lemma_u16_reads_back(b, at + 2 * k, ns.last());
        assert forall|i: int| 0 <= i < ns.len() implies u16s_at(b, at, ns.len())[i] == ns[i] by {
            if i < k {
                assert(u16s_at(b, at, k as nat)[i] == ns.drop_last()[i]);
            }
        }
    }
    assert(u16s_at(b, at, ns.len()) =~= ns);
}

/// A u16 takes two bytes.
proof fn lemma_be16s_len(ns: Seq<u16>)
    ensures
        be16s(ns).len() == 2 * ns.len(),
    decreases ns.len(),
{
    if ns.len() > 0 {
        lemma_be16s_len(ns.drop_last());
    }
}

/// Whether a message can be written, and is kept whole when it is read.
pub open spec fn fits(m: Said, cap: nat) -> bool {
    &&& m matches Said::Plate { plate, .. } ==> plate.len() <= 255
    &&& m matches Said::IAmDispatcher { roads } ==> roads.len() <= 255 && roads.len() <= cap
}

/// What is written is read, whatever follows it: the message, and exactly the
/// bytes that it takes. Strings and arrays are those whose length fits in a
/// byte, and arrays those that are kept whole.
pub proof fn law_written_messages_read_back(m: Said, rest: Seq<u8>, cap: nat)
    requires
        fits(m, cap),
    ensures
        front(written(m) + rest, cap) == Front::Message(m, written(m).len() as int),
{
    let b = written(m) + rest;
    match m {
        Said::Plate { plate, timestamp } => {
            let n = plate.len() as int;
            assert(b.subrange(2, 2 + n) =~= plate);
            assert(b.subrange(2 + n, 6 + n) =~= be32(timestamp));
            lemma_u32_reads_back(b, 2 + n, timestamp);
        },
        Said::WantHeartbeat { interval } => {
            assert(b.subrange(1, 5) =~= be32(interval));
            lemma_u32_reads_back(b, 1, interval);
        },
        Said::IAmCamera { road, mile, limit } => {
            lemma_u16_reads_back(b, 1, road);
            lemma_u16_reads_back(b, 3, mile);
            lemma_u16_reads_back(b, 5, limit);
        },
        Said::IAmDispatcher { roads } => {
            lemma_be16s_len(roads);
            assert(b.subrange(2, 2 + 2 * roads.len() as int) =~= be16s(roads));
            lemma_u16s_read_back(b, 2, roads);
        },
    }
}

/// A message that has not arrived whole is not read.
pub proof fn law_partial_messages_wait(m: Said, n: int, cap: nat)
    requires
        fits(m, cap),
        0 <= n < written(m).len(),
    ensures
        front(written(m).take(n), cap) == Front::Partial,
{
    if let Said::IAmDispatcher { roads } = m {
        lemma_be16s_len(roads);
    }
}

/// More bytes change nothing of a message that stands at the front.
pub proof fn law_later_bytes_change_nothing(b: Seq<u8>, more: Seq<u8>, cap: nat)
    ensures
        front(b, cap) is Partial || front(b + more, cap) == front(b, cap),
        front(b, cap) matches Front::Message(_, n) ==> 0 < n <= b.len(),
{
    let c = b + more;
    if let Front::Message(m, n) = front(b, cap) {
        match m {
            Said::Plate { plate, .. } => {
                assert(c.subrange(2, 2 + b[1]) =~= b.subrange(2, 2 + b[1]));
            },
            Said::IAmDispatcher { roads } => {
                assert(u16s_at(c, 2, roads.len()) =~= u16s_at(b, 2, roads.len()));
            },
            _ => {},
        }
    }
}

/// Messages, written one after another.
pub open spec fn all_written(ms: Seq<Said>) -> Seq<u8>
    decreases ms.len(),
{
    if ms.len() == 0 {
        Seq::empty()
    } else {
        written(ms[0]) + all_written(ms.skip(1))
    }
}

/// The messages that are read from a stream, one after another.
pub open spec fn all_read(b: Seq<u8>, cap: nat) -> Seq<Said>
    decreases b.len(),
{
    match front(b, cap) {
        Front::Message(m, n) => if 0 < n <= b.len() {
            seq![m] + all_read(b.skip(n), cap)
        } else {
            Seq::empty()
        },
        _ => Seq::empty(),
    }
}

/// Messages that are written one after another are read, in order, and none
/// besides.
pub proof fn law_streams_read_back(ms: Seq<Said>, cap: nat)
    requires
        forall|i: int| 0 <= i < ms.len() ==> fits(#[trigger] ms[i], cap),
    ensures
        all_read(all_written(ms), cap) == ms,
    decreases ms.len(),
{
    if ms.len() == 0 {
        assert(all_read(all_written(ms), cap) =~= ms);
    } else {
        let rest = all_written(ms.skip(1));
        assert(fits(ms[0], cap));
        law_written_messages_read_back(ms[0], rest, cap);
        assert(all_written(ms).skip(written(ms[0]).len() as int) =~= rest);
        law_later_bytes_change_nothing(all_written(ms), Seq::empty(), cap);
        law_streams_read_back(ms.skip(1), cap);
        assert(seq![ms[0]] + ms.skip(1) =~= ms);
    }
}

} // verus!
