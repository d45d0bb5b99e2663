//! Which session a packet goes to, and which client a response goes to.

use vstd::prelude::*;

use crate::line::types::{session_id, Pkt, PktType, Response, SessionId, BLOCK_SIZE, NUM_LENGTH};
use crate::table::{Key, Table};

verus! {

impl Key for SessionId {
    open spec fn key(&self) -> Seq<u8> {
        self@
    }

    fn key_bytes(&self) -> (r: &[u8]) {
        self.as_slice()
    }
}

/// The way to a session, and to the client that it serves.
pub struct Client<T, A> {
    pub tx: T,
    pub addr: A,
}

/// What becomes of a packet.
pub enum Route {
    /// It goes to the session that its id names.
    Deliver,
    /// A session with this id is started, and the packet goes there.
    Start(SessionId),
    /// It goes nowhere.
    Ignore,
}

/// The sessions under way, by id.
pub struct Router<T, A> {
    clients: Table<SessionId, Client<T, A>>,
}

impl<T, A> View for Router<T, A> {
    type V = Map<Seq<u8>, Client<T, A>>;

    closed spec fn view(&self) -> Map<Seq<u8>, Client<T, A>> {
        self.clients@
    }
}

/// The clients once a response has gone out: a session that sends a close is
/// over.
pub open spec fn after_response<T, A>(
    clients: Map<Seq<u8>, Client<T, A>>,
    r: Response,
) -> Map<Seq<u8>, Client<T, A>> {
    if r.kind() == PktType::Close {
        clients.remove(r.session())
    } else {
        clients
    }
}

/// Whether a packet is for a session that is under way.
pub open spec fn delivers<T, A>(clients: Map<Seq<u8>, Client<T, A>>, pkt: Pkt) -> bool {
    clients.contains_key(pkt.session())
}

/// Whether a packet starts a session.
pub open spec fn starts<T, A>(clients: Map<Seq<u8>, Client<T, A>>, pkt: Pkt) -> bool {
    !clients.contains_key(pkt.session()) && pkt.ptype == PktType::Connect
}

impl<T, A: Copy> Router<T, A> {
    /// Whether no session is listed twice.
    pub closed spec fn wf(&self) -> bool {
        self.clients.wf()
    }

    /// A router with no sessions.
    pub fn new() -> (r: Router<T, A>)
        ensures
            r.wf(),
            r@ == Map::<Seq<u8>, Client<T, A>>::empty(),
    {
        Router { clients: Table::new() }
    }

    /// What becomes of a packet. One that belongs to no session is ignored
    /// unless it asks for one.
    pub fn route(&self, pkt: &Pkt) -> (r: Route)
        requires
            self.wf(),
            pkt.id_start <= pkt.id_end <= BLOCK_SIZE,
        ensures
            r is Deliver <==> delivers(self@, *pkt),
            r is Start <==> starts(self@, *pkt),
            r matches Route::Start(id) ==> id@ == session_id(pkt.session()),
    {
        if self.clients.contains(pkt.id()) {
            Route::Deliver
        } else if pkt.ptype == PktType::Connect {
            Route::Start(SessionId::from(pkt.id()))
        } else {
            Route::Ignore
        }
    }

    /// Lists a session, in place of one that may have had the same id.
    pub fn start(&mut self, id: SessionId, client: Client<T, A>)
        requires
            old(self).wf(),
        ensures
            final(self).wf(),
            final(self)@ == old(self)@.insert(id@, client),
    {
        let _ = self.clients.insert(id, client);
    }

    /// The session with an id, if there is one.
    pub fn get(&self, id: &[u8]) -> (r: Option<&Client<T, A>>)
        requires
            self.wf(),
        ensures
            match r {
                Some(c) => self@.contains_key(id@) && *c == self@[id@],
                None => !self@.contains_key(id@),
            },
    {
        self.clients.get(id)
    }

    /// Where a response goes; after a close, the session is over.
    pub fn respond(&mut self, resp: &Response) -> (r: Option<A>)
        requires
            old(self).wf(),
        ensures
            final(self).wf(),
            final(self)@ == after_response(old(self)@, *resp),
            r == if old(self)@.contains_key(resp.session()) {
                Some(old(self)@[resp.session()].addr)
            } else {
                None
            },
    {
        if resp.rtype() == PktType::Close {
            match self.clients.remove(resp.id()) {
                Some(client) => Some(client.addr),
                None => None,
            }
        } else {
            match self.clients.get(resp.id()) {
                Some(client) => Some(client.addr),
                None => None,
            }
        }
    }
}

/// Once a session has sent a close, packets with its id go nowhere, but for
/// one that asks for a session anew. No other session is touched.
pub proof fn law_closed_sessions_are_over<T, A>(
    clients: Map<Seq<u8>, Client<T, A>>,
    r: Response,
    pkt: Pkt,
)
    requires
        r.kind() == PktType::Close,
    ensures
        pkt.session() == r.session() ==> !delivers(after_response(clients, r), pkt) && (starts(
            after_response(clients, r),
            pkt,
        ) <==> pkt.ptype == PktType::Connect),
        pkt.session() != r.session() ==> delivers(after_response(clients, r), pkt) == delivers(
            clients,
            pkt,
        ),
{
}

/// The packets of a session that was started are delivered to it, if its id
/// is not too long to be kept whole.
pub proof fn law_started_sessions_get_their_packets<T, A>(
    clients: Map<Seq<u8>, Client<T, A>>,
    first: Pkt,
    later: Pkt,
    client: Client<T, A>,
)
    requires
        starts(clients, first),
        later.session() == first.session(),
        first.session().len() <= NUM_LENGTH,
    ensures
        delivers(clients.insert(session_id(first.session()), client), later),
        clients.insert(session_id(first.session()), client)[later.session()] == client,
{
}

} // verus!
