//! Who is connected, which tickets wait, and where tickets go.

use std::collections::{BTreeMap, BTreeSet};

use vstd::prelude::*;

use crate::speed::bio::{LPString, LPU16Array};
use crate::speed::events::Event;
use crate::speed::obs::{first_seen, Car, Infraction, Obs, Record, Ticket};
use crate::table::Table;

verus! {

/// The list of a key, which is empty where there is none.
pub open spec fn listed<T>(m: Map<u16, Seq<T>>, road: u16) -> Seq<T> {
    if m.contains_key(road) {
        m[road]
    } else {
        Seq::empty()
    }
}

/// Where `x` first stands in `s`; the length of `s` where it does not.
pub open spec fn first<T>(s: Seq<T>, x: T, from: int) -> int
    decreases s.len() - from,
{
    if from < 0 || from >= s.len() {
        s.len() as int
    } else if s[from] == x {
        from
    } else {
        first(s, x, from + 1)
    }
}

/// `s` without its element at `i`, in whose place the last one moves.
pub open spec fn swapped_out<T>(s: Seq<T>, i: int) -> Seq<T> {
    s.update(i, s.last()).drop_last()
}

/// The first of `ids` that is a dispatcher.
pub open spec fn available(ids: Seq<usize>, dispatchers: Set<usize>) -> Option<usize>
    decreases ids.len(),
{
    if ids.len() == 0 {
        None
    } else if dispatchers.contains(ids[0]) {
        Some(ids[0])
    } else {
        available(ids.skip(1), dispatchers)
    }
}

/// The coverage without one entry of a dispatcher for a road. A road that
/// nobody is left for is taken off.
pub open spec fn relieved(coverage: Map<u16, Seq<usize>>, id: usize, road: u16) -> Map<
    u16,
    Seq<usize>,
> {
    let ids = listed(coverage, road);
    let i = first(ids, id, 0);
    if i >= ids.len() {
        coverage
    } else if ids.len() == 1 {
        coverage.remove(road)
    } else {
        coverage.insert(road, swapped_out(ids, i))
    }
}

/// The coverage without a dispatcher for each of its roads.
pub open spec fn all_relieved(coverage: Map<u16, Seq<usize>>, id: usize, roads: Seq<u16>) -> Map<
    u16,
    Seq<usize>,
>
    decreases roads.len(),
{
    if roads.len() == 0 {
        coverage
    } else {
        relieved(all_relieved(coverage, id, roads.drop_last()), id, roads.last())
    }
}

/// What the lists of a map hold.
pub open spec fn contents<T>(m: Map<u16, Vec<T>>) -> Map<u16, Seq<T>> {
    m.map_values(|v: Vec<T>| v@)
}

/// Hand the ticket to an appropriate dispatcher, whose id is returned, or
/// queue it for later if none are connected.
pub fn dispose_ticket(
    coverage: &BTreeMap<u16, Vec<usize>>,
    dispatchers: &BTreeMap<usize, LPU16Array>,
    tickets: &mut BTreeMap<u16, Vec<Infraction>>,
    ticket: Infraction,
) -> (r: Option<usize>)
    ensures
        r == available(listed(contents(coverage@), ticket.road), dispatchers@.dom()),
        contents(final(tickets)@) == if r is Some {
            contents(old(tickets)@)
        } else {
            contents(old(tickets)@).insert(
                ticket.road,
                listed(contents(old(tickets)@), ticket.road).push(ticket),
            )
        },
{
    if let Some(ids) = coverage.get(&ticket.road) {
        let mut i: usize = 0;
        assert(ids@.skip(0) =~= ids@);
        while i < ids.len()
            invariant
                i <= ids@.len(),
                ids@ == listed(contents(coverage@), ticket.road),
                available(ids@, dispatchers@.dom()) == available(
                    ids@.skip(i as int),
                    dispatchers@.dom(),
                ),
            decreases ids@.len() - i,
        {
            let id: usize = ids[i];
            if dispatchers.contains_key(&id) {
                return Some(id);
            }
            i = i + 1;
            assert(ids@.skip(i as int) =~= ids@.skip(i - 1).skip(1));
        }
    }
    let ghost before = tickets@;
    let mut list = match tickets.remove(&ticket.road) {
        Some(list) => list,
        None => Vec::new(),
    };
    assert(list@ =~= listed(contents(before), ticket.road));
    list.push(ticket);
    tickets.insert(ticket.road, list);
    assert(contents(tickets@) =~= contents(before).insert(
        ticket.road,
        listed(contents(before), ticket.road).push(ticket),
    ));
    None
}

/// Where an id stands in a list.
fn find(ids: &Vec<usize>, id: usize) -> (r: Option<usize>)
    ensures
        match r {
            Some(i) => i < ids@.len() && i == first(ids@, id, 0),
            None => first(ids@, id, 0) == ids@.len(),
        },
{
    let mut i: usize = 0;
    while i < ids.len()
        invariant
            i <= ids@.len(),
            first(ids@, id, 0) == first(ids@, id, i as int),
        decreases ids@.len() - i,
    {
        if ids[i] == id {
            return Some(i);
        }
        i = i + 1;
    }
    None
}

/// Remove all of a given dispatcher's roads from the coverage map.
pub fn remove_roads(coverage: &mut BTreeMap<u16, Vec<usize>>, id: usize, roads: &LPU16Array)
    ensures
        contents(final(coverage)@) == all_relieved(contents(old(coverage)@), id, roads@),
{
    let list = roads.as_slice();
    let ghost before = contents(coverage@);
    let mut n: usize = 0;
    assert(list@.take(0) =~= Seq::<u16>::empty());
    while n < list.len()
        invariant
            n <= list@.len(),
            contents(coverage@) == all_relieved(before, id, list@.take(n as int)),
        decreases list@.len() - n,
    {
        let road: u16 = list[n];
        let ghost was = coverage@;
        if let Some(ids) = coverage.remove(&road) {
            let mut ids = ids;
            let ghost had = ids@;
            assert(had == listed(contents(was), road));
            match find(&ids, id) {
                Some(i) => {
                    // The order of dispatcher ids in each Vec doesn't matter.
                    let _ = ids.swap_remove(i);
                    assert(ids@ =~= swapped_out(had, i as int));
                    // If there are no more connected dispatchers with
                    // responsibility for this road, the whole entry stays
                    // out of the map.
                    if ids.len() > 0 {
                        coverage.insert(road, ids);
                    }
                },
                None => {
                    coverage.insert(road, ids);
                },
            }
        }
        assert(contents(coverage@) =~= relieved(contents(was), id, road));
        n = n + 1;
        assert(list@.take(n as int).drop_last() =~= list@.take(n - 1));
    }
    assert(list@.take(n as int) =~= list@);
}

/// What the server keeps.
pub struct Desk {
    /// The clients that have not said what they are.
    pub unidentified: Set<usize>,
    /// The dispatchers, with their roads.
    pub dispatchers: Map<usize, Seq<u16>>,
    /// The dispatchers on duty for each road.
    pub coverage: Map<u16, Seq<usize>>,
    /// The tickets for each road that wait for a dispatcher.
    pub tickets: Map<u16, Seq<Infraction>>,
    /// The cars, by plate.
    pub cars: Map<Seq<u8>, Record>,
}

impl Desk {
    /// The dispatchers on duty for a road.
    pub open spec fn on_duty(self, road: u16) -> Seq<usize> {
        listed(self.coverage, road)
    }

    /// The tickets that wait for a road.
    pub open spec fn waiting(self, road: u16) -> Seq<Infraction> {
        listed(self.tickets, road)
    }

    /// A dispatcher takes on a road, and with it the tickets that wait.
    pub open spec fn cover(self, id: usize, road: u16) -> Desk {
        Desk {
            coverage: self.coverage.insert(road, self.on_duty(road).push(id)),
            tickets: self.tickets.remove(road),
            ..self
        }
    }

    /// A dispatcher takes on roads, one after another.
    pub open spec fn cover_all(self, id: usize, roads: Seq<u16>) -> Desk
        decreases roads.len(),
    {
        if roads.len() == 0 {
            self
        } else {
            self.cover_all(id, roads.drop_last()).cover(id, roads.last())
        }
    }

    /// The tickets that come with roads, taken on one after another.
    pub open spec fn backlog(self, id: usize, roads: Seq<u16>) -> Seq<Infraction>
        decreases roads.len(),
    {
        if roads.len() == 0 {
            Seq::empty()
        } else {
            self.backlog(id, roads.drop_last()) + self.cover_all(id, roads.drop_last()).waiting(
                roads.last(),
            )
        }
    }

    /// The ticket that an observation leads to.
    pub open spec fn ticket(self, plate: Seq<u8>, road: u16, limit: u16, pos: Obs) -> Option<Ticket> {
        if self.cars.contains_key(plate) {
            self.cars[plate].ticket(road, limit, pos)
        } else {
            None
        }
    }

    /// The record of a car after an observation.
    pub open spec fn record(self, plate: Seq<u8>, road: u16, limit: u16, pos: Obs) -> Record {
        if self.cars.contains_key(plate) {
            self.cars[plate].after(road, limit, pos)
        } else {
            first_seen(plate, road, pos)
        }
    }

    /// Who gets a ticket for a road now.
    pub open spec fn taker(self, road: u16) -> Option<usize> {
        available(self.on_duty(road), self.dispatchers.dom())
    }

    /// A client leaves.
    pub open spec fn left(self, id: usize) -> Desk {
        if self.dispatchers.contains_key(id) {
            Desk {
                dispatchers: self.dispatchers.remove(id),
                coverage: all_relieved(self.coverage, id, self.dispatchers[id]),
                ..self
            }
        } else {
            Desk { unidentified: self.unidentified.remove(id), ..self }
        }
    }

    /// A client turns out to be a dispatcher.
    pub open spec fn enlisted(self, id: usize, roads: Seq<u16>) -> Desk {
        if self.unidentified.contains(id) {
            let desk = self.cover_all(id, roads);
            Desk {
                unidentified: desk.unidentified.remove(id),
                dispatchers: desk.dispatchers.insert(id, roads),
                ..desk
            }
        } else {
            self
        }
    }
}

/// A ticket on its way to a dispatcher.
#[derive(Clone, Copy)]
pub struct Delivery {
    pub id: usize,
    pub ticket: Infraction,
}

/// Whether `before` becomes `after` at an event, with the deliveries `sent`.
pub open spec fn happens(before: Desk, e: Event, after: Desk, sent: Seq<Delivery>) -> bool {
    match e {
        Event::Camera { id } => {
            &&& sent.len() == 0
            &&& after == (Desk { unidentified: before.unidentified.remove(id), ..before })
        },
        Event::Dispatcher { id, roads } => {
            &&& after == before.enlisted(id, roads@)
            &&& sent == if before.unidentified.contains(id) {
                before.backlog(id, roads@).map_values(|t: Infraction| Delivery { id, ticket: t })
            } else {
                Seq::empty()
            }
        },
        Event::Gone { id } => sent.len() == 0 && after == before.left(id),
        Event::Observation { plate, road, limit, pos } => {
            let desk = Desk {
                cars: before.cars.insert(plate@, before.record(plate@, road, limit, pos)),
                ..before
            };
            match before.ticket(plate@, road, limit, pos) {
                None => sent.len() == 0 && after == desk,
                Some(t) => match before.taker(road) {
                    Some(id) => {
                        &&& sent.len() == 1
                        &&& sent[0].id == id
                        &&& sent[0].ticket@ == t
                        &&& after == desk
                    },
                    None => {
                        &&& sent.len() == 0
                        &&& after == (Desk { tickets: after.tickets, ..desk })
                        &&& after.tickets == before.tickets.insert(road, after.waiting(road))
                        &&& after.waiting(road).len() == before.waiting(road).len() + 1
                        &&& after.waiting(road).drop_last() == before.waiting(road)
                        &&& after.waiting(road).last()@ == t
                    },
                },
            }
        },
    }
}

/// The central server: it hears what clients tell, and hands out tickets.
pub struct Server {
    /// As-of-yet-unidentified clients.
    unid_clients: BTreeSet<usize>,
    /// Maps ids to the roads of dispatchers.
    dispatchers: BTreeMap<usize, LPU16Array>,
    /// Maps road numbers to dispatcher ids.
    coverage: BTreeMap<u16, Vec<usize>>,
    /// Maps roads to undelivered tickets.
    tickets: BTreeMap<u16, Vec<Infraction>>,
    /// Maps plates to cars.
    cars: Table<LPString, Car>,
    client_n: usize,
}

impl View for Server {
    type V = Desk;

    closed spec fn view(&self) -> Desk {
        Desk {
            unidentified: self.unid_clients@,
            dispatchers: self.dispatchers@.map_values(|a: LPU16Array| a@),
            coverage: contents(self.coverage@),
            tickets: contents(self.tickets@),
            cars: self.cars@.map_values(|c: Car| c@),
        }
    }
}

impl Server {
    /// Whether no car is listed twice.
    pub closed spec fn wf(&self) -> bool {
        self.cars.wf()
    }

    /// How many clients have connected; the next one is given this number.
    pub closed spec fn count(&self) -> usize {
        self.client_n
    }

    /// A server to which nobody has connected.
    pub fn new() -> (r: Server)
        ensures
            r.wf(),
            r.count() == 0,
            r@ == (Desk {
                unidentified: Set::empty(),
                dispatchers: Map::empty(),
                coverage: Map::empty(),
                tickets: Map::empty(),
                cars: Map::empty(),
            }),
    {
        let r = Server {
            unid_clients: BTreeSet::new(),
            dispatchers: BTreeMap::new(),
            coverage: BTreeMap::new(),
            tickets: BTreeMap::new(),
            cars: Table::new(),
            client_n: 0,
        };
        assert(r@.dispatchers =~= Map::<usize, Seq<u16>>::empty());
        assert(r@.coverage =~= Map::<u16, Seq<usize>>::empty());
        assert(r@.tickets =~= Map::<u16, Seq<Infraction>>::empty());
        assert(r@.cars =~= Map::<Seq<u8>, Record>::empty());
        r
    }

    /// A client connects, and is given a number.
    pub fn connect(&mut self) -> (id: usize)
        requires
            old(self).wf(),
            old(self).count() < usize::MAX,
        ensures
            final(self).wf(),
            id == old(self).count(),
            final(self).count() == id + 1,
            final(self)@ == (Desk {
                unidentified: old(self)@.unidentified.insert(id),
                ..old(self)@
            }),
    {
        let id: usize = self.client_n;
        self.unid_clients.insert(id);
        self.client_n = id + 1;
        id
    }

    /// How many clients have connected.
    pub fn connected(&self) -> (r: usize)
        ensures
            r == self.count(),
    {
        self.client_n
    }

    /// A dispatcher takes on its roads; the tickets that wait for them are
    /// returned.
    fn enlist(&mut self, id: usize, roads: &LPU16Array) -> (r: Vec<Delivery>)
        requires
            old(self).wf(),
        ensures
            final(self).wf(),
            final(self).count() == old(self).count(),
            final(self)@ == old(self)@.cover_all(id, roads@),
            r@ == old(self)@.backlog(id, roads@).map_values(
                |t: Infraction| Delivery { id, ticket: t },
            ),
    {
        let list = roads.as_slice();
        let ghost before = self@;
        let ghost n0 = self.client_n;
        let ghost wrap = |t: Infraction| Delivery { id, ticket: t };
        let mut r: Vec<Delivery> = Vec::new();
        let mut n: usize = 0;
        assert(list@.take(0) =~= Seq::<u16>::empty());
        assert(r@ =~= before.backlog(id, list@.take(0)).map_values(wrap));
        while n < list.len()
            invariant
                n <= list@.len(),
                self.wf(),
                self.client_n == n0,
                self@ == before.cover_all(id, list@.take(n as int)),
                r@ == before.backlog(id, list@.take(n as int)).map_values(wrap),
                wrap == (|t: Infraction| Delivery { id, ticket: t }),
            decreases list@.len() - n,
        {
            let road: u16 = list[n];
            let ghost was = self@;
            let ghost had = r@;
            let mut ids = match self.coverage.remove(&road) {
                Some(ids) => ids,
                None => Vec::new(),
            };
            assert(ids@ =~= was.on_duty(road));
            ids.push(id);
            self.coverage.insert(road, ids);
            assert(self@.coverage =~= was.cover(id, road).coverage);
            match self.tickets.remove(&road) {
                Some(ts) => {
                    assert(ts@ =~= was.waiting(road));
                    let mut i: usize = 0;
                    assert(had + ts@.take(0).map_values(wrap) =~= had);
                    while i < ts.len()
                        invariant
                            i <= ts@.len(),
                            r@ == had + ts@.take(i as int).map_values(wrap),
                            wrap == (|t: Infraction| Delivery { id, ticket: t }),
                        decreases ts@.len() - i,
                    {
                        r.push(Delivery { id, ticket: ts[i] });
                        i = i + 1;
                        assert(r@ =~= had + ts@.take(i as int).map_values(wrap));
                    }
                    assert(ts@.take(i as int) =~= ts@);
                },
                None => {
                    assert(r@ =~= had + was.waiting(road).map_values(wrap));
                },
            }
            assert(self@.tickets =~= was.cover(id, road).tickets);
            n = n + 1;
            assert(list@.take(n as int).drop_last() =~= list@.take(n - 1));
            assert(r@ =~= before.backlog(id, list@.take(n as int)).map_values(wrap));
        }
        assert(list@.take(n as int) =~= list@);
        r
    }

    /// Takes an event, and tells which tickets go to which dispatchers.
    pub fn handle(&mut self, e: Event) -> (sent: Vec<Delivery>)
        requires
            old(self).wf(),
        ensures
            final(self).wf(),
            final(self).count() == old(self).count(),
            happens(old(self)@, e, final(self)@, sent@),
    {
        let ghost before = self@;
        match e {
            Event::Observation { plate, road, limit, pos } => {
                match self.cars.remove(plate.as_slice()) {
                    Some(car) => {
                        let mut car = car;
                        let found = car.observed(road, limit, pos);
                        self.cars.insert(plate, car);
                        assert(self@.cars =~= before.cars.insert(
                            plate@,
                            before.record(plate@, road, limit, pos),
                        ));
                        match found {
                            Some(ticket) => {
                                let taker = dispose_ticket(
                                    &self.coverage,
                                    &self.dispatchers,
                                    &mut self.tickets,
                                    ticket,
                                );
                                assert(before.dispatchers.dom() =~= self.dispatchers@.dom());
                                match taker {
                                    Some(id) => {
                                        let mut sent: Vec<Delivery> = Vec::new();
                                        sent.push(Delivery { id, ticket });
                                        sent
                                    },
                                    None => {
                                        assert(self@.waiting(road).drop_last() =~= before.waiting(
                                            road,
                                        ));
                                        Vec::new()
                                    },
                                }
                            },
                            None => Vec::new(),
                        }
                    },
                    None => {
                        self.cars.insert(plate, Car::new(plate, road, pos));
                        assert(self@.cars =~= before.cars.insert(
                            plate@,
                            before.record(plate@, road, limit, pos),
                        ));
                        Vec::new()
                    },
                }
            },
            Event::Gone { id } => {
                match self.dispatchers.remove(&id) {
                    Some(roads) => {
                        remove_roads(&mut self.coverage, id, &roads);
                        assert(self@.dispatchers =~= before.dispatchers.remove(id));
                    },
                    None => {
                        assert(self@.dispatchers =~= before.dispatchers);
                        self.unid_clients.remove(&id);
                    },
                }
                Vec::new()
            },
            Event::Camera { id } => {
                self.unid_clients.remove(&id);
                Vec::new()
            },
            Event::Dispatcher { id, roads } => {
                if self.unid_clients.contains(&id) {
                    let sent = self.enlist(id, &roads);
                    let ghost covered = self@;
                    self.unid_clients.remove(&id);
                    self.dispatchers.insert(id, roads);
                    assert(self@.dispatchers =~= covered.dispatchers.insert(id, roads@));
                    sent
                } else {
                    Vec::new()
                }
            },
        }
    }
}

} // verus!
