//! The messages of cameras and dispatchers byte by byte, and what a connection
//! does message by message.

use vstd::prelude::*;

use crate::bytes::{be16, be32};
use crate::speed::bio::{
    array_printed, clipped, listing, printed, string_printed, ClientMessage, Error, LPString,
    LPU16Array, Parsed, ServerMessage,
};
use crate::speed::clients::{
    complaint, error_bytes, every, ticket_bytes, Action, Client, Deed, End, Fault, Heartbeat,
    Input,
};
use crate::speed::error::IoError;
use crate::speed::events::Event;
use crate::speed::message;
use crate::speed::obs::Infraction;
use crate::speed::server::Desk;
use crate::speed::wire::{front, prefixed, Front, Said};
use crate::text::{in_decimal, quoted, text_of};

verus! {

/// What stands at the front of a stream, byte by byte. A plate comes as its
/// length, its bytes and four bytes of time.
pub proof fn law_plates_on_the_wire(b: Seq<u8>, cap: nat)
    requires
        b.len() >= 2,
        b[0] == 0x20,
    ensures
        b.len() < 6 + b[1] ==> front(b, cap) is Partial,
        b.len() >= 6 + b[1] ==> ({
            let n = b[1] as int;
            front(b, cap) matches Front::Message(Said::Plate { plate, timestamp }, used) && {
                &&& used == 6 + n
                &&& plate == b.subrange(2, 2 + n)
                &&& timestamp == b[2 + n] * 16777216 + b[3 + n] * 65536 + b[4 + n] * 256 + b[5 + n]
            }
        }),
{
}

/// A request for a heartbeat comes with four bytes of interval, and a camera
/// with two bytes each of road, mile and limit.
pub proof fn law_requests_on_the_wire(b: Seq<u8>, cap: nat)
    requires
        b.len() > 0,
    ensures
        b[0] == 0x40 && b.len() < 5 ==> front(b, cap) is Partial,
        b[0] == 0x40 && b.len() >= 5 ==> (front(b, cap) matches Front::Message(
            Said::WantHeartbeat { interval },
            used,
        ) && used == 5 && interval == b[1] * 16777216 + b[2] * 65536 + b[3] * 256 + b[4]),
        b[0] == 0x80 && b.len() < 7 ==> front(b, cap) is Partial,
        b[0] == 0x80 && b.len() >= 7 ==> (front(b, cap) matches Front::Message(
            Said::IAmCamera { road, mile, limit },
            used,
        ) && used == 7 && road == b[1] * 256 + b[2] && mile == b[3] * 256 + b[4] && limit == b[5]
            * 256 + b[6]),
        b[0] != 0x20 && b[0] != 0x40 && b[0] != 0x80 && b[0] != 0x81 ==> front(b, cap)
            == Front::Illegal(b[0]),
        (b[0] == 0x20 || b[0] == 0x81) && b.len() == 1 ==> front(b, cap) is Partial,
        front(Seq::empty(), cap) is Partial,
{
}

/// A dispatcher comes with the number of its roads and two bytes for each, of
/// which the first that there is room for are kept.
pub proof fn law_dispatchers_on_the_wire(b: Seq<u8>, cap: nat)
    requires
        b.len() >= 2,
        b[0] == 0x81,
    ensures
        b.len() < 2 + 2 * b[1] ==> front(b, cap) is Partial,
        b.len() >= 2 + 2 * b[1] ==> (front(b, cap) matches Front::Message(
            Said::IAmDispatcher { roads },
            used,
        ) && {
            &&& used == 2 + 2 * b[1]
            &&& b[1] <= cap ==> roads.len() == b[1]
            &&& b[1] > cap ==> roads.len() == cap
            &&& forall|i: int|
                0 <= i < roads.len() ==> #[trigger] roads[i] == b[2 + 2 * i] * 256 + b[3 + 2 * i]
        }),
{
}

/// What a length-prefixed string keeps of a byte string: all of it up to two
/// hundred and fifty-five bytes, and as many of the first of a longer one.
pub proof fn law_what_strings_keep(bytes: Seq<u8>)
    ensures
        bytes.len() <= 255 ==> clipped(bytes) == bytes,
        bytes.len() > 255 ==> clipped(bytes).len() == 255 && clipped(bytes) == bytes.take(255),
        bytes.len() <= 255 ==> prefixed(bytes).len() == bytes.len() + 1 && prefixed(bytes)[0]
            == bytes.len() && prefixed(bytes).skip(1) == bytes,
{
    assert(prefixed(bytes).skip(1) =~= bytes);
}

/// The messages of the server, byte by byte: an error as its length and its
/// text, a heartbeat as one byte, and a ticket as its plate and its numbers.
pub proof fn law_messages_of_the_server(
    msg: LPString,
    road: u16,
    mile1: u16,
    timestamp1: u32,
    mile2: u16,
    timestamp2: u32,
    speed: u16,
)
    requires
        msg@.len() <= 255,
    ensures
        (ServerMessage::Heartbeat)@ == seq![0x41u8],
        (ServerMessage::Error { msg })@ == seq![0x10u8, msg@.len() as u8] + msg@,
        ({
            let b = (ServerMessage::Ticket {
                plate: msg,
                road,
                mile1,
                timestamp1,
                mile2,
                timestamp2,
                speed,
            })@;
            let n = msg@.len() as int;
            &&& b.len() == n + 18
            &&& b[0] == 0x21
            &&& b[1] == n
            &&& b.subrange(2, 2 + n) == msg@
            &&& road == b[n + 2] * 256 + b[n + 3]
            &&& mile1 == b[n + 4] * 256 + b[n + 5]
            &&& timestamp1 == b[n + 6] * 16777216 + b[n + 7] * 65536 + b[n + 8] * 256 + b[n + 9]
            &&& mile2 == b[n + 10] * 256 + b[n + 11]
            &&& timestamp2 == b[n + 12] * 16777216 + b[n + 13] * 65536 + b[n + 14] * 256 + b[n
                + 15]
            &&& speed == b[n + 16] * 256 + b[n + 17]
        }),
{
    let m = ServerMessage::Ticket {
        plate: msg,
        road,
        mile1,
        timestamp1,
        mile2,
        timestamp2,
        speed,
    };
    let n = msg@.len() as int;
    assert((ServerMessage::Error { msg })@ =~= seq![0x10u8, msg@.len() as u8] + msg@);
    let b = m@;
    assert(b =~= seq![0x21u8, n as u8] + msg@ + be16(road) + be16(mile1) + be32(timestamp1) + be16(
        mile2,
    ) + be32(timestamp2) + be16(speed));
    assert(b.subrange(2, 2 + n) =~= msg@);
    assert(b[n + 2] == be16(road)[0] && b[n + 3] == be16(road)[1]);
    assert(b[n + 4] == be16(mile1)[0] && b[n + 5] == be16(mile1)[1]);
    assert(b[n + 6] == be32(timestamp1)[0] && b[n + 7] == be32(timestamp1)[1] && b[n + 8] == be32(
        timestamp1,
    )[2] && b[n + 9] == be32(timestamp1)[3]);
    assert(b[n + 10] == be16(mile2)[0] && b[n + 11] == be16(mile2)[1]);
    assert(b[n + 12] == be32(timestamp2)[0] && b[n + 13] == be32(timestamp2)[1] && b[n + 14]
        == be32(timestamp2)[2] && b[n + 15] == be32(timestamp2)[3]);
    assert(b[n + 16] == be16(speed)[0] && b[n + 17] == be16(speed)[1]);
}

/// Which bytes an error and a ticket are sent as.
pub proof fn law_what_clients_are_sent(text: Seq<u8>, t: Infraction)
    ensures
        text.len() <= 255 ==> error_bytes(text) == seq![0x10u8, text.len() as u8] + text,
        text.len() > 255 ==> error_bytes(text) == seq![0x10u8, 255u8] + text.take(255),
        ticket_bytes(t) == (ServerMessage::Ticket {
            plate: t.plate,
            road: t.road,
            mile1: t.start.mile,
            timestamp1: t.start.timestamp,
            mile2: t.end.mile,
            timestamp2: t.end.timestamp,
            speed: t.speed,
        })@,
{
    if text.len() <= 255 {
        assert(error_bytes(text) =~= seq![0x10u8, text.len() as u8] + text);
    } else {
        assert(error_bytes(text) =~= seq![0x10u8, 255u8] + text.take(255));
    }
}

/// How numbers, strings and messages print.
pub proof fn law_how_messages_print(
    ns: Seq<u16>,
    n: u16,
    bytes: Seq<u8>,
    time: u32,
    road: u16,
    mile: u16,
    limit: u16,
)
    ensures
        listing(Seq::empty()) == Seq::<char>::empty(),
        listing(seq![n]) == in_decimal(n as nat),
        ns.len() > 0 ==> listing(ns.push(n)) == listing(ns) + ", "@ + in_decimal(n as nat),
        array_printed(ns) == "LPU16Array(["@ + listing(ns) + "])"@,
        string_printed(bytes) == "LPString("@ + quoted(text_of(bytes)) + ")"@,
        printed(Said::Plate { plate: bytes, timestamp: time }) == "Plate { plate: "@
            + string_printed(bytes) + ", timestamp: "@ + in_decimal(time as nat) + " }"@,
        printed(Said::WantHeartbeat { interval: time }) == "WantHeartbeat { interval: "@
            + in_decimal(time as nat) + " }"@,
        printed(Said::IAmCamera { road, mile, limit }) == "IAmCamera { road: "@ + in_decimal(
            road as nat,
        ) + ", mile: "@ + in_decimal(mile as nat) + ", limit: "@ + in_decimal(limit as nat)
            + " }"@,
        printed(Said::IAmDispatcher { roads: ns }) == "IAmDispatcher { roads: "@ + array_printed(ns)
            + " }"@,
{
    assert(ns.push(n).drop_last() =~= ns);
}

/// What a camera's connection does: it tells the server of each plate with the
/// road, the mile and the limit that it announced, the limit in hundredths.
pub proof fn law_cameras_report_what_they_see(
    c: Client,
    road: u16,
    mile: u16,
    limit: u16,
    plate: LPString,
    timestamp: u32,
)
    requires
        c.role is Unidentified,
        limit <= 655,
    ensures
        ({
            let hello = Input::Message(ClientMessage::IAmCamera { road, mile, limit });
            let camera = c.after(hello);
            let seen = Input::Message(ClientMessage::Plate { plate, timestamp });
            &&& c.deed(hello).tell == Some(Event::Camera { id: c.id })
            &&& c.deed(hello).write is None && c.deed(hello).end is None
            &&& camera.id == c.id && camera.heart == c.heart
            &&& camera.after(seen) == camera
            &&& camera.deed(seen).write is None && camera.deed(seen).end is None
            &&& camera.deed(seen).tell matches Some(
                Event::Observation { plate: p, road: r, limit: l, pos },
            ) && p == plate && r == road && l == 100 * limit && pos.mile == mile && pos.timestamp
                == timestamp
        }),
{
}

/// What a dispatcher's connection does: it tells the server of its roads, and
/// writes each ticket that it is given.
pub proof fn law_dispatchers_write_tickets(c: Client, roads: LPU16Array, t: Infraction)
    requires
        c.role is Unidentified,
    ensures
        ({
            let hello = Input::Message(ClientMessage::IAmDispatcher { roads });
            let dispatcher = c.after(hello);
            &&& c.deed(hello).tell == Some(Event::Dispatcher { id: c.id, roads })
            &&& c.deed(hello).write is None && c.deed(hello).end is None
            &&& dispatcher.id == c.id && dispatcher.heart == c.heart
            &&& dispatcher.role is Dispatcher
            &&& dispatcher.deed(Input::Ticket(Some(t))).write == Some(ticket_bytes(t))
            &&& dispatcher.deed(Input::Ticket(Some(t))).tell is None
            &&& dispatcher.deed(Input::Ticket(Some(t))).end is None
            &&& dispatcher.after(Input::Ticket(Some(t))) == dispatcher
            &&& dispatcher.deed(Input::Ticket(None)).end == Some(None::<Fault>)
            &&& dispatcher.after(Input::Ticket(None)) == dispatcher
        }),
{
}

/// What the other inputs do: a heartbeat is written at each beat, set to one
/// tenth of a second for each unit that was asked for, once; an error ends the
/// connection as what it is; and tickets are for dispatchers alone.
pub proof fn law_other_inputs(c: Client, n: u32, t: Option<Infraction>, e: Error, io: IoError)
    ensures
        every(0) == Heartbeat(None),
        n > 0 ==> (every(n).0 matches Some(millis) && millis == 100 * n),
        ({
            let want = Input::Message(ClientMessage::WantHeartbeat { interval: n });
            &&& c.heart.0 is None ==> c.after(want) == (Client { heart: every(n), ..c }) && c.deed(
                want,
            ) == (Deed { tell: None, write: None, end: None })
            &&& c.heart.0 is Some ==> c.after(want) == c && c.deed(want).end is Some && c.deed(
                want,
            ).tell is None && c.deed(want).write is None
        }),
        c.deed(Input::Beat) == (Deed { tell: None, write: Some(seq![0x41u8]), end: None }),
        c.after(Input::Beat) == c,
        c.deed(Input::Failed(e)) == (Deed { tell: None, write: None, end: Some(Some(e@)) }),
        c.deed(Input::Unwritten(io)) == (Deed {
            tell: None,
            write: None,
            end: Some(Some(Fault::Io(io))),
        }),
        !(c.role is Dispatcher) ==> c.deed(Input::Ticket(t)) == (Deed {
            tell: None,
            write: None,
            end: None,
        }) && c.after(Input::Ticket(t)) == c,
{
}

/// Messages that do not belong to what a client is end the connection, and
/// nothing is told or written; all others go on.
pub proof fn law_misplaced_messages_end_the_connection(c: Client, m: ClientMessage)
    requires
        !(m is WantHeartbeat),
    ensures
        ({
            let belongs = if m is Plate {
                c.role is Camera
            } else {
                c.role is Unidentified
            };
            let d = c.deed(Input::Message(m));
            &&& belongs ==> d.end is None && d.tell is Some
            &&& !belongs ==> d.tell is None && d.write is None && c.after(Input::Message(m)) == c
            &&& !belongs ==> (d.end matches Some(Some(Fault::Protocol(text))) && text.len()
                >= complaint(c.role).len() + printed(m@).len() && text.subrange(
                complaint(c.role).len() as int,
                (complaint(c.role).len() + printed(m@).len()) as int,
            ) == printed(m@))
        }),
{
    let text = complaint(c.role) + printed(m@) + if c.role is Unidentified {
        " "@
    } else {
        Seq::empty()
    };
    assert(text.subrange(
        complaint(c.role).len() as int,
        (complaint(c.role).len() + printed(m@).len()) as int,
    ) =~= printed(m@));
}

/// Who is on duty for a road, and what waits for it, is what the books list,
/// and nobody and nothing where they list none.
pub proof fn law_lists_of_the_books(d: Desk, road: u16)
    ensures
        d.coverage.contains_key(road) ==> d.on_duty(road) == d.coverage[road],
        !d.coverage.contains_key(road) ==> d.on_duty(road).len() == 0,
        d.tickets.contains_key(road) ==> d.waiting(road) == d.tickets[road],
        !d.tickets.contains_key(road) ==> d.waiting(road).len() == 0,
{
}

/// What the values of the service stand for, field by field.
pub proof fn law_what_values_stand_for(
    t: Infraction,
    plate: LPString,
    time: u32,
    road: u16,
    mile: u16,
    limit: u16,
    roads: LPU16Array,
    all: message::LPU16Array,
    e: Error,
)
    ensures
        t@.plate == t.plate@ && t@.road == t.road && t@.start == t.start && t@.end == t.end
            && t@.speed == t.speed,
        (ClientMessage::Plate { plate, timestamp: time })@ == (Said::Plate {
            plate: plate@,
            timestamp: time,
        }),
        (ClientMessage::WantHeartbeat { interval: time })@ == (Said::WantHeartbeat {
            interval: time,
        }),
        (ClientMessage::IAmCamera { road, mile, limit })@ == (Said::IAmCamera {
            road,
            mile,
            limit,
        }),
        (ClientMessage::IAmDispatcher { roads })@ == (Said::IAmDispatcher { roads: roads@ }),
        (message::ClientMessage::Plate { plate, timestamp: time })@ == (Said::Plate {
            plate: plate@,
            timestamp: time,
        }),
        (message::ClientMessage::WantHeartbeat { interval: time })@ == (Said::WantHeartbeat {
            interval: time,
        }),
        (message::ClientMessage::IAmCamera { road, mile, limit })@ == (Said::IAmCamera {
            road,
            mile,
            limit,
        }),
        (message::ClientMessage::IAmDispatcher { roads: all })@ == (Said::IAmDispatcher {
            roads: all@,
        }),
        e is Eof ==> e@ is Eof,
        e matches Error::ProtocolError(text) ==> e@ == Fault::Protocol(text@),
        e matches Error::IOError(io) ==> e@ == Fault::Io(io),
{
}

/// What is to be done is what a deed says.
pub proof fn law_what_actions_stand_for(a: Action, msg: ServerMessage, e: Error, p: Parsed)
    ensures
        a@.tell == a.tell,
        a.write == Some(msg) ==> a@.write == Some(msg@),
        a.write is None ==> a@.write is None,
        a.end is None ==> a@.end is None,
        a.end matches Some(End::Clean) ==> a@.end == Some(None::<Fault>),
        a.end == Some(End::Failed(e)) ==> a@.end == Some(Some(e@)),
        p matches Parsed::Message(m, n) ==> p@ == Front::Message(m@, n as int),
        p is Partial ==> p@ is Partial,
        p matches Parsed::Illegal(b) ==> p@ == Front::Illegal(b),
{
}

} // verus!
