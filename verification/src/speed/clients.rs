//! Bookkeeping and behavior of the types of clients.

use vstd::prelude::*;
use vstd::string::*;

use crate::bytes::{be16, be32};
use crate::speed::bio::{
    clipped, printed, ClientMessage, Error, LPString, ServerMessage,
};
use crate::speed::error::IoError;
use crate::speed::events::Event;
use crate::speed::obs::{Infraction, Obs};
use crate::speed::wire::prefixed;

verus! {

/// The highest limit, in miles per hour, that can be told in hundredths.
pub const MAX_LIMIT: u16 = 655;

/// An optional heartbeat: the milliseconds between two beats.
#[derive(Clone, Copy, Debug, PartialEq, Eq, Structural)]
pub struct Heartbeat(pub Option<u64>);

impl Heartbeat {
    /// A heart that does not beat.
    pub fn new() -> (r: Heartbeat)
        ensures
            r == Heartbeat(None),
    {
        Heartbeat(None)
    }

    /// Set this heart to not beat.
    pub fn stop(&mut self)
        ensures
            *final(self) == Heartbeat(None),
    {
        self.0 = None;
    }

    /// Set this heart to beat every `n` deciseconds.
    pub fn set_decisecs(&mut self, n: u32)
        ensures
            *final(self) == every(n),
    {
        if n == 0 {
            self.stop();
            return;
        }
        let millis: u64 = (n as u64) * 100;
        self.0 = Some(millis);
    }

    /// Return whether this heartbeat is beating.
    pub fn is_beating(&self) -> (r: bool)
        ensures
            r == (self.0 is Some),
    {
        self.0.is_some()
    }
}

/// A heart that beats every `n` deciseconds, or never where that is zero.
pub open spec fn every(n: u32) -> Heartbeat {
    if n == 0 {
        Heartbeat(None)
    } else {
        Heartbeat(Some((n * 100) as u64))
    }
}

/// What a client has turned out to be.
#[derive(Clone, Copy, Debug, PartialEq, Eq, Structural)]
pub enum Role {
    /// Neither an IAmCamera nor an IAmDispatcher message has come.
    Unidentified,
    /// A camera; the limit is in hundredths of miles per hour.
    Camera { road: u16, mile: u16, limit: u16 },
    Dispatcher,
}

/// When a client first connects, it is unidentified.
///
/// Once an IAmCamera or IAmDispatcher message is received, it then runs as
/// the appropriate type.
pub struct Client {
    pub id: usize,
    pub heart: Heartbeat,
    pub role: Role,
}

/// What a client waits for.
pub enum Input {
    /// A message from the other end.
    Message(ClientMessage),
    /// There will be no more messages.
    Failed(Error),
    /// The heart beats.
    Beat,
    /// Something from the server: a ticket, or that there will be none.
    Ticket(Option<Infraction>),
    /// A message could not be written.
    Unwritten(IoError),
}

/// How a client's run ends.
pub enum End {
    Clean,
    Failed(Error),
}

/// What a client does.
pub struct Action {
    /// What the server is told.
    pub tell: Option<Event>,
    /// What is written to the other end.
    pub write: Option<ServerMessage>,
    /// Whether, and how, the run is over.
    pub end: Option<End>,
}

/// What an error says.
pub enum Fault {
    Eof,
    Protocol(Seq<char>),
    Io(IoError),
}

impl View for Error {
    type V = Fault;

    open spec fn view(&self) -> Fault {
        match *self {
            Error::Eof => Fault::Eof,
            Error::ProtocolError(text) => Fault::Protocol(text@),
            Error::IOError(e) => Fault::Io(e),
        }
    }
}

/// What a client does, in the order of `Action`.
pub struct Deed {
    pub tell: Option<Event>,
    pub write: Option<Seq<u8>>,
    pub end: Option<Option<Fault>>,
}

impl View for Action {
    type V = Deed;

    open spec fn view(&self) -> Deed {
        Deed {
            tell: self.tell,
            write: match self.write {
                Some(m) => Some(m@),
                None => None,
            },
            end: match self.end {
                Some(End::Clean) => Some(None),
                Some(End::Failed(e)) => Some(Some(e@)),
                None => None,
            },
        }
    }
}

/// An error message as it is sent.
pub open spec fn error_bytes(text: Seq<u8>) -> Seq<u8> {
    seq![0x10u8] + prefixed(clipped(text))
}

/// A ticket as it is sent.
pub open spec fn ticket_bytes(t: Infraction) -> Seq<u8> {
    seq![0x21u8] + prefixed(t.plate@) + be16(t.road) + be16(t.start.mile) + be32(
        t.start.timestamp,
    ) + be16(t.end.mile) + be32(t.end.timestamp) + be16(t.speed)
}

/// To do nothing.
pub open spec fn nothing() -> Deed {
    Deed { tell: None, write: None, end: None }
}

/// To end in a fault.
pub open spec fn fails(f: Fault) -> Deed {
    Deed { tell: None, write: None, end: Some(Some(f)) }
}

/// Whether a message is one that a client in a role may send.
pub open spec fn expects(role: Role, m: ClientMessage) -> bool {
    match m {
        ClientMessage::WantHeartbeat { .. } => true,
        ClientMessage::Plate { .. } => role is Camera,
        _ => role is Unidentified,
    }
}

/// How the fault starts that a message is where it is not expected.
pub open spec fn complaint(role: Role) -> Seq<char> {
    match role {
        Role::Unidentified => "illegal unident msg: "@,
        Role::Camera { .. } => "illegal Camera msg: "@,
        Role::Dispatcher => "illegal Dispatcher msg: "@,
    }
}

impl Client {
    /// What the client does at an input.
    pub open spec fn deed(self, input: Input) -> Deed {
        match input {
            Input::Message(m) => if !expects(self.role, m) {
                fails(
                    Fault::Protocol(
                        complaint(self.role) + printed(m@) + if self.role is Unidentified {
                            " "@
                        } else {
                            Seq::empty()
                        },
                    ),
                )
            } else {
                match m {
                    ClientMessage::WantHeartbeat { .. } => if self.heart.0 is Some {
                        fails(Fault::Protocol("multiple heartbeat requests"@))
                    } else {
                        nothing()
                    },
                    ClientMessage::IAmCamera { .. } => Deed {
                        tell: Some(Event::Camera { id: self.id }),
                        ..nothing()
                    },
                    ClientMessage::IAmDispatcher { roads } => Deed {
                        tell: Some(Event::Dispatcher { id: self.id, roads }),
                        ..nothing()
                    },
                    ClientMessage::Plate { plate, timestamp } => Deed {
                        tell: Some(
                            Event::Observation {
                                plate,
                                road: self.role->road,
                                limit: self.role->limit,
                                pos: Obs { mile: self.role->mile, timestamp },
                            },
                        ),
                        ..nothing()
                    },
                }
            },
            Input::Failed(e) => fails(e@),
            Input::Beat => Deed { write: Some(seq![0x41u8]), ..nothing() },
            Input::Ticket(t) => if self.role is Dispatcher {
                match t {
                    Some(t) => Deed { write: Some(ticket_bytes(t)), ..nothing() },
                    None => Deed {
                        write: Some(error_bytes(vstd::utf8::encode_utf8("server error, sorry"@))),
                        end: Some(None),
                        ..nothing()
                    },
                }
            } else {
                nothing()
            },
            Input::Unwritten(e) => fails(Fault::Io(e)),
        }
    }

    /// The client after an input.
    pub open spec fn after(self, input: Input) -> Client {
        match input {
            Input::Message(m) => if !expects(self.role, m) {
                self
            } else {
                match m {
                    ClientMessage::WantHeartbeat { interval } => if self.heart.0 is Some {
                        self
                    } else {
                        Client { heart: every(interval), ..self }
                    },
                    ClientMessage::IAmCamera { road, mile, limit } => Client {
                        role: Role::Camera { road, mile, limit: (limit * 100) as u16 },
                        ..self
                    },
                    ClientMessage::IAmDispatcher { .. } => Client { role: Role::Dispatcher, ..self
                    },
                    ClientMessage::Plate { .. } => self,
                }
            },
            _ => self,
        }
    }

    /// A client that has just connected.
    pub fn new(id: usize) -> (r: Client)
        ensures
            r == (Client { id, heart: Heartbeat(None), role: Role::Unidentified }),
    {
        Client { id, heart: Heartbeat::new(), role: Role::Unidentified }
    }

    /// Starts the heart, unless it is beating.
    pub fn try_start_heart(&mut self, interval: u32) -> (r: Result<(), Error>)
        ensures
            *final(self) == if old(self).heart.0 is Some {
                *old(self)
            } else {
                Client { heart: every(interval), ..*old(self) }
            },
            match r {
                Ok(()) => old(self).heart.0 is None,
                Err(e) => old(self).heart.0 is Some && e@ == Fault::Protocol(
                    "multiple heartbeat requests"@,
                ),
            },
    {
        if self.heart.is_beating() {
            return Err(Error::ProtocolError(String::from_str("multiple heartbeat requests")));
        } else {
            self.heart.set_decisecs(interval);
            Ok(())
        }
    }

    /// The fault that a message is where it is not expected.
    fn illegal(&self, m: &ClientMessage) -> (r: Action)
        ensures
            r@ == fails(
                Fault::Protocol(
                    complaint(self.role) + printed(m@) + if self.role is Unidentified {
                        " "@
                    } else {
                        Seq::empty()
                    },
                ),
            ),
    {
        let mut text = match self.role {
            Role::Unidentified => String::from_str("illegal unident msg: "),
            Role::Camera { .. } => String::from_str("illegal Camera msg: "),
            Role::Dispatcher => String::from_str("illegal Dispatcher msg: "),
        };
        text.append(m.to_text().as_str());
        if let Role::Unidentified = self.role {
            text.append(" ");
        }
        assert(text@ =~= complaint(self.role) + printed(m@) + if self.role is Unidentified {
            " "@
        } else {
            Seq::empty()
        });
        Action { tell: None, write: None, end: Some(End::Failed(Error::ProtocolError(text))) }
    }

    /// Takes an input, and tells what is to be done.
    pub fn handle(&mut self, input: Input) -> (r: Action)
        requires
            input matches Input::Message(ClientMessage::IAmCamera { limit, .. }) ==> limit
                <= MAX_LIMIT || !(old(self).role is Unidentified),
        ensures
            *final(self) == old(self).after(input),
            r@ == old(self).deed(input),
    {
        match input {
            Input::Message(m) => match m {
                ClientMessage::WantHeartbeat { interval } => match self.try_start_heart(
                    interval,
                ) {
                    Ok(()) => Action { tell: None, write: None, end: None },
                    Err(e) => Action { tell: None, write: None, end: Some(End::Failed(e)) },
                },
                ClientMessage::Plate { plate, timestamp } => match self.role {
                    Role::Camera { road, mile, limit } => {
                        let pos = Obs { mile, timestamp };
                        let evt = Event::Observation { plate, road, limit, pos };
                        Action { tell: Some(evt), write: None, end: None }
                    },
                    _ => self.illegal(&m),
                },
                ClientMessage::IAmCamera { road, mile, limit } => match self.role {
                    Role::Unidentified => {
                        // A camera reports its limit in mi/hr, but all of our
                        // calculations (and our dispatching) are done in
                        // hundredths of mi/hr.
                        self.role = Role::Camera { road, mile, limit: limit * 100 };
                        Action { tell: Some(Event::Camera { id: self.id }), write: None, end: None }
                    },
                    _ => self.illegal(&m),
                },
                ClientMessage::IAmDispatcher { roads } => match self.role {
                    Role::Unidentified => {
                        self.role = Role::Dispatcher;
                        let evt = Event::Dispatcher { id: self.id, roads };
                        Action { tell: Some(evt), write: None, end: None }
                    },
                    _ => self.illegal(&m),
                },
            },
            Input::Failed(e) => Action { tell: None, write: None, end: Some(End::Failed(e)) },
            Input::Beat => Action {
                tell: None,
                write: Some(ServerMessage::Heartbeat),
                end: None,
            },
            Input::Ticket(t) => match self.role {
                Role::Dispatcher => match t {
                    Some(t) => {
                        let msg = ServerMessage::Ticket {
                            plate: t.plate,
                            road: t.road,
                            mile1: t.start.mile,
                            timestamp1: t.start.timestamp,
                            mile2: t.end.mile,
                            timestamp2: t.end.timestamp,
                            speed: t.speed,
                        };
                        Action { tell: None, write: Some(msg), end: None }
                    },
                    None => {
                        let msg = ServerMessage::Error {
                            msg: LPString::from("server error, sorry".as_bytes()),
                        };
                        Action { tell: None, write: Some(msg), end: Some(End::Clean) }
                    },
                },
                _ => Action { tell: None, write: None, end: None },
            },
            Input::Unwritten(e) => Action {
                tell: None,
                write: None,
                end: Some(End::Failed(Error::IOError(e))),
            },
        }
    }

    /// The last thing that the other end is sent, if anything; then it is
    /// disconnected, and the server told that the client is gone.
    pub fn farewell(&self, end: &End) -> (r: (Option<ServerMessage>, Event))
        ensures
            match end {
                End::Clean => r.0 is None,
                End::Failed(e) => match e@ {
                    Fault::Eof => r.0 is None,
                    Fault::Protocol(text) => r.0 is Some && r.0->Some_0@ == error_bytes(
                        vstd::utf8::encode_utf8(text),
                    ),
                    Fault::Io(_) => r.0 is Some && r.0->Some_0@ == error_bytes(
                        vstd::utf8::encode_utf8("the server encountered an error"@),
                    ),
                },
            },
            r.1 == (Event::Gone { id: self.id }),
    {
        let last = match end {
            End::Clean => None,
            End::Failed(e) => match e {
                Error::Eof => None,
                Error::IOError(_) => Some(
                    ServerMessage::Error {
                        msg: LPString::from("the server encountered an error".as_bytes()),
                    },
                ),
                Error::ProtocolError(cerr) => Some(
                    ServerMessage::Error { msg: LPString::from(cerr.as_str().as_bytes()) },
                ),
            },
        };
        (last, Event::Gone { id: self.id })
    }
}

/// A client says what it is once: whatever comes later, a camera stays the
/// camera that it is, and a dispatcher a dispatcher. A second announcement
/// ends the run.
pub proof fn law_roles_are_kept(c: Client, input: Input)
    requires
        !(c.role is Unidentified),
    ensures
        c.after(input).role == c.role,
        input matches Input::Message(ClientMessage::IAmCamera { .. }) ==> c.deed(input).end
            is Some,
        input matches Input::Message(ClientMessage::IAmDispatcher { .. }) ==> c.deed(input).end
            is Some,
{
}

/// A heart that beats goes on as it does, and a second request for one ends
/// the run; a request for no beats counts for none.
pub proof fn law_hearts_are_started_once(c: Client, input: Input, interval: u32)
    ensures
        c.heart.0 is Some ==> c.after(input).heart == c.heart,
        c.heart.0 is Some <==> c.deed(
            Input::Message(ClientMessage::WantHeartbeat { interval }),
        ).end is Some,
        c.heart.0 is None ==> (c.after(
            Input::Message(ClientMessage::WantHeartbeat { interval }),
        ).heart.0 is Some <==> interval > 0),
{
}

} // verus!
