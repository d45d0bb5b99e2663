//! Types for keeping track of observations of vehicles.

use std::collections::{BTreeMap, BTreeSet};

use vstd::prelude::*;

use crate::speed::bio::LPString;

verus! {

/// A struct so we don't get our timestamps and our days confused.
#[derive(Clone, Copy, Debug, PartialEq, Eq, PartialOrd, Ord, Structural)]
pub struct Day(pub u32);

/// A single observation.
#[derive(Clone, Copy, Debug, PartialEq, Eq, Structural)]
pub struct Obs {
    pub mile: u16,
    pub timestamp: u32,
}

/// The distance of two numbers.
pub open spec fn apart(a: int, b: int) -> int {
    if a < b {
        b - a
    } else {
        a - b
    }
}

/// The average speed between two observations in hundredths of a mile per
/// hour, rounded down; zero where the time between them is zero, or where the
/// speed would be more than a u16 can represent.
pub open spec fn speed(a: Obs, b: Obs) -> int {
    let hundredths = apart(a.mile as int, b.mile as int) * 100 * 3600 / apart(
        a.timestamp as int,
        b.timestamp as int,
    );
    if a.timestamp == b.timestamp || hundredths > u16::MAX {
        0
    } else {
        hundredths
    }
}

impl Obs {
    /// The number of the day on which this observation occurred.
    pub open spec fn on(&self) -> u32 {
        self.timestamp / 86400
    }

    /// Determine the average speed between two observations
    /// in miles per hour x100.
    ///
    /// Obviously, it only makes sense to use this to compare two observations
    /// of the same vehicle on the same road.
    pub fn speed_between(&self, other: &Obs) -> (r: u16)
        ensures
            r == speed(*self, *other),
            self.timestamp == other.timestamp ==> r == 0,
            self.timestamp != other.timestamp ==> ({
                let d = if self.mile < other.mile {
                    other.mile - self.mile
                } else {
                    self.mile - other.mile
                };
                let t = if self.timestamp < other.timestamp {
                    other.timestamp - self.timestamp
                } else {
                    self.timestamp - other.timestamp
                };
                if 360000 * d < 65536 * t {
                    r * t <= 360000 * d < (r + 1) * t
                } else {
                    r == 0
                }
            }),
    {
        proof {
            law_speed_in_miles_and_seconds(*self, *other);
        }
        if self.timestamp == other.timestamp {
            return 0;
        }
        let miles: u64 = if self.mile < other.mile {
            (other.mile - self.mile) as u64
        } else {
            (self.mile - other.mile) as u64
        };
        let secs: u64 = if self.timestamp < other.timestamp {
            (other.timestamp - self.timestamp) as u64
        } else {
            (self.timestamp - other.timestamp) as u64
        };
        // We multiply our numerator by 3600 instead of dividing our
        // denominator by 3600; that way we only ever truncate on
        // the final division operation.
        let ispeed: u64 = miles * 100 * 3600 / secs;
        if ispeed > 65535 {
            return 0;
        }
        ispeed as u16
    }

    /// Number of days since epoch on which this observation occurred.
    pub fn day(&self) -> (r: Day)
        ensures
            r == Day(self.on()),
    {
        // number of seconds in a day
        Day(self.timestamp / 86400)
    }
}

/// The coordinates that go along with a speeding ticket.
#[derive(Clone, Copy)]
pub struct Infraction {
    pub plate: LPString,
    pub road: u16,
    pub start: Obs,
    pub end: Obs,
    /// In hundredths of miles per hour.
    pub speed: u16,
}

/// What is known of a car.
pub struct Record {
    pub plate: Seq<u8>,
    /// The observations that may still lead to a ticket, by road.
    pub seen: Map<u16, Seq<Obs>>,
    /// The days on which the car was ticketed.
    pub ticketed: Set<u32>,
}

/// What a ticket says.
pub struct Ticket {
    pub plate: Seq<u8>,
    pub road: u16,
    pub start: Obs,
    pub end: Obs,
    pub speed: int,
}

impl View for Infraction {
    type V = Ticket;

    open spec fn view(&self) -> Ticket {
        Ticket {
            plate: self.plate@,
            road: self.road,
            start: self.start,
            end: self.end,
            speed: self.speed as int,
        }
    }
}

/// Which of the observations in `list` is the first that `obs` is to be
/// ticketed with: it is of a day without a ticket, and the limit was broken
/// on the way. The length of `list` if there is none.
pub open spec fn offence(list: Seq<Obs>, ticketed: Set<u32>, limit: u16, obs: Obs, from: int) -> int
    decreases list.len() - from,
{
    if from < 0 || from >= list.len() {
        list.len() as int
    } else if !ticketed.contains(list[from].on()) && speed(obs, list[from]) > limit {
        from
    } else {
        offence(list, ticketed, limit, obs, from + 1)
    }
}

/// The observations in `list` of days without a ticket.
pub open spec fn unticketed(list: Seq<Obs>, ticketed: Set<u32>) -> Seq<Obs>
    decreases list.len(),
{
    if list.len() == 0 {
        Seq::empty()
    } else if ticketed.contains(list.last().on()) {
        unticketed(list.drop_last(), ticketed)
    } else {
        unticketed(list.drop_last(), ticketed).push(list.last())
    }
}

impl Record {
    /// The observations on a road.
    pub open spec fn on_road(self, road: u16) -> Seq<Obs> {
        if self.seen.contains_key(road) {
            self.seen[road]
        } else {
            Seq::empty()
        }
    }

    /// The ticket that an observation leads to.
    pub open spec fn ticket(self, road: u16, limit: u16, obs: Obs) -> Option<Ticket> {
        let list = self.on_road(road);
        let i = offence(list, self.ticketed, limit, obs, 0);
        if self.ticketed.contains(obs.on()) || i >= list.len() {
            None
        } else {
            let prev = list[i];
            let (start, end) = if obs.timestamp > prev.timestamp {
                (prev, obs)
            } else {
                (obs, prev)
            };
            Some(Ticket { plate: self.plate, road, start, end, speed: speed(obs, prev) })
        }
    }

    /// The record after an observation: a ticket marks the days of the two
    /// observations on it, and what was seen on those days is forgotten.
    pub open spec fn after(self, road: u16, limit: u16, obs: Obs) -> Record {
        match self.ticket(road, limit, obs) {
            Some(t) => {
                let ticketed = self.ticketed.insert(t.start.on()).insert(t.end.on());
                Record {
                    seen: self.seen.map_values(|l: Seq<Obs>| unticketed(l, ticketed)),
                    ticketed,
                    ..self
                }
            },
            None => if self.ticketed.contains(obs.on()) {
                self
            } else {
                Record { seen: self.seen.insert(road, self.on_road(road).push(obs)), ..self }
            },
        }
    }
}

/// What is known of a car that is seen for the first time.
pub open spec fn first_seen(plate: Seq<u8>, road: u16, obs: Obs) -> Record {
    Record {
        plate,
        seen: Map::<u16, Seq<Obs>>::empty().insert(road, seq![obs]),
        ticketed: Set::empty(),
    }
}

/// Stores a record of observations and issued tickets.
pub struct Car {
    plate: LPString,
    /// Keys are road numbers; values are vectors of observations.
    observations: BTreeMap<u16, Vec<Obs>>,
    /// The numbers of the days.
    ticketed: BTreeSet<u32>,
}

impl View for Car {
    type V = Record;

    closed spec fn view(&self) -> Record {
        Record {
            plate: self.plate@,
            seen: self.observations@.map_values(|v: Vec<Obs>| v@),
            ticketed: self.ticketed@,
        }
    }
}

impl Car {
    /// Instantiate a new car with the given plate and observation parameters.
    pub fn new(plate: LPString, road: u16, obs: Obs) -> (r: Car)
        ensures
            r@ == first_seen(plate@, road, obs),
    {
        let mut observations: BTreeMap<u16, Vec<Obs>> = BTreeMap::new();
        let mut list: Vec<Obs> = Vec::new();
        list.push(obs);
        assert(list@ =~= seq![obs]);
        observations.insert(road, list);
        let r = Car { plate, observations, ticketed: BTreeSet::new() };
        assert(r@.seen =~= Map::<u16, Seq<Obs>>::empty().insert(road, seq![obs]));
        r
    }

    /// Where in `list` the first observation stands that `obs` is to be
    /// ticketed with, if there is one.
    fn find_offence(&self, list: &Vec<Obs>, limit: u16, obs: Obs) -> (r: Option<usize>)
        ensures
            match r {
                Some(i) => i < list@.len() && i == offence(list@, self.ticketed@, limit, obs, 0),
                None => offence(list@, self.ticketed@, limit, obs, 0) == list@.len(),
            },
    {
        let mut i: usize = 0;
        while i < list.len()
            invariant
                i <= list@.len(),
                offence(list@, self.ticketed@, limit, obs, 0) == offence(
                    list@,
                    self.ticketed@,
                    limit,
                    obs,
                    i as int,
                ),
            decreases list@.len() - i,
        {
            let prev = list[i];
            let d = prev.day();
            if !self.ticketed.contains(&d.0) && obs.speed_between(&prev) > limit {
                return Some(i);
            }
            i = i + 1;
        }
        None
    }

    /// Forgets what was seen on ticketed days. These observations can't be
    /// used to generate more tickets.
    fn prune(&mut self)
        ensures
            final(self)@ == (Record {
                seen: old(self)@.seen.map_values(
                    |l: Seq<Obs>| unticketed(l, old(self)@.ticketed),
                ),
                ..old(self)@
            }),
    {
        let ghost before = *self;
        let mut kept: BTreeMap<u16, Vec<Obs>> = BTreeMap::new();
        for kv in it: self.observations.iter()
            invariant
                *self == before,
                forall|k: u16|
                    kept@.contains_key(k) <==> exists|i: int|
                        0 <= i < it.index() && *(#[trigger] it.seq()[i]).0 == k,
                forall|k: u16| #[trigger]
                    kept@.contains_key(k) ==> before.observations@.contains_key(k) && kept@[k]@
                        == unticketed(before.observations@[k]@, before.ticketed@),
        {
            let list = self.retain(kv.1);
            kept.insert(*kv.0, list);
        }
        self.observations = kept;
        assert(self@.seen =~= before@.seen.map_values(
            |l: Seq<Obs>| unticketed(l, before@.ticketed),
        ));
    }

    /// The observations in `list` of days without a ticket.
    fn retain(&self, list: &Vec<Obs>) -> (r: Vec<Obs>)
        ensures
            r@ == unticketed(list@, self.ticketed@),
    {
        let mut r: Vec<Obs> = Vec::new();
        let mut i: usize = 0;
        assert(list@.take(0) =~= Seq::<Obs>::empty());
        while i < list.len()
            invariant
                i <= list@.len(),
                r@ == unticketed(list@.take(i as int), self.ticketed@),
            decreases list@.len() - i,
        {
            let o = list[i];
            let d = o.day();
            if !self.ticketed.contains(&d.0) {
                r.push(o);
            }
            i = i + 1;
            assert(list@.take(i as int).drop_last() =~= list@.take(i - 1));
        }
        assert(list@.take(i as int) =~= list@);
        r
    }

    /// Record this car as being observed under the provided conditions.
    ///
    /// If an Infraction is warranted, mark the car as having been ticketed
    /// on that day (or those days), and return the Infraction.
    pub fn observed(&mut self, road: u16, limit: u16, obs: Obs) -> (r: Option<Infraction>)
        ensures
            final(self)@ == old(self)@.after(road, limit, obs),
            match r {
                Some(t) => old(self)@.ticket(road, limit, obs) == Some(t@),
                None => old(self)@.ticket(road, limit, obs) is None,
            },
    {
        let ghost before = *self;
        let d = obs.day();
        if self.ticketed.contains(&d.0) {
            return None;
        }
        let mut list = match self.observations.remove(&road) {
            Some(list) => list,
            None => Vec::new(),
        };
        assert(list@ =~= before@.on_road(road));
        match self.find_offence(&list, limit, obs) {
            Some(i) => {
                let prev = list[i];
                let speed: u16 = obs.speed_between(&prev);
                let ticket = if obs.timestamp > prev.timestamp {
                    Infraction { plate: self.plate, road, speed, start: prev, end: obs }
                } else {
                    Infraction { plate: self.plate, road, speed, start: obs, end: prev }
                };
                self.observations.insert(road, list);
                // We're going to issue a ticket for this vehicle, and
                // don't want to issue another one for the day (or days)
                // of the observations for this one.
                self.ticketed.insert(ticket.start.day().0);
                self.ticketed.insert(ticket.end.day().0);
                assert(self@.seen =~= before@.seen);
                self.prune();
                assert(self@.seen =~= before@.after(road, limit, obs).seen);
                Some(ticket)
            },
            None => {
                list.push(obs);
                self.observations.insert(road, list);
                assert(self@.seen =~= before@.after(road, limit, obs).seen);
                None
            },
        }
    }
}

/// The speed is the same whichever observation comes first.
pub proof fn law_speed_is_symmetric(a: Obs, b: Obs)
    ensures
        speed(a, b) == speed(b, a),
        0 <= speed(a, b) <= u16::MAX,
{
    if a.timestamp != b.timestamp {
        let miles = apart(a.mile as int, b.mile as int) * 100 * 3600;
        let secs = apart(a.timestamp as int, b.timestamp as int);
        assert(miles / secs >= 0) by (nonlinear_arith)
            requires
                miles >= 0,
                secs > 0,
        ;
    }
}

/// What `offence` finds is the first observation to be ticketed with.
proof fn lemma_offence(list: Seq<Obs>, ticketed: Set<u32>, limit: u16, obs: Obs, from: int)
    requires
        0 <= from <= list.len(),
    ensures
        ({
            let i = offence(list, ticketed, limit, obs, from);
            &&& from <= i <= list.len()
            &&& i < list.len() ==> !ticketed.contains(list[i].on()) && speed(obs, list[i]) > limit
            &&& forall|j: int|
                from <= j < i ==> ticketed.contains(#[trigger] list[j].on()) || speed(obs, list[j])
                    <= limit
        }),
    decreases list.len() - from,
{
    if from < list.len() && (ticketed.contains(list[from].on()) || speed(obs, list[from])
        <= limit) {
        lemma_offence(list, ticketed, limit, obs, from + 1);
    }
}

/// A ticket is earned: the car was seen at both of its ends on that road, the
/// second after the first, the limit was broken in between, and there was no
/// ticket on either day.
pub proof fn law_tickets_are_earned(r: Record, road: u16, limit: u16, obs: Obs)
    ensures
        r.ticket(road, limit, obs) matches Some(t) ==> {
            &&& t.plate == r.plate
            &&& t.road == road
            &&& t.start.timestamp < t.end.timestamp
            &&& t.speed == speed(t.start, t.end)
            &&& t.speed > limit
            &&& (t.start == obs && r.on_road(road).contains(t.end)) || (t.end == obs && r.on_road(
                road,
            ).contains(t.start))
            &&& !r.ticketed.contains(t.start.on())
            &&& !r.ticketed.contains(t.end.on())
        },
{
    let list = r.on_road(road);
    lemma_offence(list, r.ticketed, limit, obs, 0);
    let i = offence(list, r.ticketed, limit, obs, 0);
    if i < list.len() {
        law_speed_is_symmetric(obs, list[i]);
    }
}

/// Speeding is ticketed: an observation leads to a ticket exactly where its
/// day has none, and neither has that of an observation on the same road
/// from which the car can only have come too fast.
pub proof fn law_speeding_is_ticketed(r: Record, road: u16, limit: u16, obs: Obs)
    ensures
        r.ticket(road, limit, obs) is Some <==> !r.ticketed.contains(obs.on()) && exists|i: int|
            0 <= i < r.on_road(road).len() && !r.ticketed.contains(
                #[trigger] r.on_road(road)[i].on(),
            ) && speed(obs, r.on_road(road)[i]) > limit,
{
    lemma_offence(r.on_road(road), r.ticketed, limit, obs, 0);
}

/// A car seen by a camera.
pub struct Sighting {
    pub road: u16,
    pub limit: u16,
    pub obs: Obs,
}

/// The tickets that a car gets for what is seen of it, in order.
pub open spec fn issued(r: Record, seen: Seq<Sighting>) -> Seq<Ticket>
    decreases seen.len(),
{
    if seen.len() == 0 {
        Seq::empty()
    } else {
        let s = seen[0];
        let rest = issued(r.after(s.road, s.limit, s.obs), seen.skip(1));
        match r.ticket(s.road, s.limit, s.obs) {
            Some(t) => seq![t] + rest,
            None => rest,
        }
    }
}

/// Whether a ticket is for a day.
pub open spec fn covers(t: Ticket, day: u32) -> bool {
    t.start.on() == day || t.end.on() == day
}

/// A car gets at most one ticket for a day, whatever is seen of it, and none
/// for a day that has one already.
pub proof fn law_one_ticket_a_day(r: Record, seen: Seq<Sighting>)
    ensures
        forall|i: int, day: u32|
            0 <= i < issued(r, seen).len() && r.ticketed.contains(day) ==> !(#[trigger] covers(
                issued(r, seen)[i],
                day,
            )),
        forall|i: int, j: int, day: u32|
            0 <= i < j < issued(r, seen).len() && #[trigger] covers(issued(r, seen)[i], day)
                ==> !(#[trigger] covers(issued(r, seen)[j], day)),
    decreases seen.len(),
{
    if seen.len() > 0 {
        let s = seen[0];
        let next = r.after(s.road, s.limit, s.obs);
        let rest = issued(next, seen.skip(1));
        law_one_ticket_a_day(next, seen.skip(1));
        law_tickets_are_earned(r, s.road, s.limit, s.obs);
        if let Some(t) = r.ticket(s.road, s.limit, s.obs) {
            let all = issued(r, seen);
            assert(all =~= seq![t] + rest);
            assert forall|i: int, day: u32|
                0 <= i < all.len() && r.ticketed.contains(day) implies !(#[trigger] covers(
                all[i],
                day,
            )) by {
                if i > 0 {
                    assert(all[i] == rest[i - 1]);
                    assert(next.ticketed.contains(day));
                }
            }
            assert forall|i: int, j: int, day: u32|
                0 <= i < j < all.len() && #[trigger] covers(all[i], day) implies !(
            #[trigger] covers(all[j], day)) by {
                assert(all[j] == rest[j - 1]);
                if i == 0 {
                    assert(next.ticketed.contains(day));
                } else {
                    assert(all[i] == rest[i - 1]);
                }
            }
        }
    }
}

/// Whether nothing is kept of what was seen on a ticketed day.
pub open spec fn clean(r: Record) -> bool {
    forall|road: u16, i: int|
        0 <= i < r.on_road(road).len() ==> !r.ticketed.contains(
            (#[trigger] r.on_road(road)[i]).on(),
        )
}

/// What is left of a list is of days without a ticket.
proof fn lemma_unticketed(list: Seq<Obs>, ticketed: Set<u32>)
    ensures
        forall|i: int|
            0 <= i < unticketed(list, ticketed).len() ==> !ticketed.contains(
                (#[trigger] unticketed(list, ticketed)[i]).on(),
            ),
    decreases list.len(),
{
    if list.len() > 0 {
        lemma_unticketed(list.drop_last(), ticketed);
        let less = unticketed(list.drop_last(), ticketed);
        let all = unticketed(list, ticketed);
        assert forall|i: int| 0 <= i < all.len() implies !ticketed.contains(
            (#[trigger] all[i]).on(),
        ) by {
            if i < less.len() {
                assert(all[i] == less[i]);
            }
        }
    }
}

/// No observation on a ticketed day is kept: not of a car that is new, and not
/// after any observation of one of which none was kept.
pub proof fn law_nothing_is_kept_of_ticketed_days(
    r: Record,
    plate: Seq<u8>,
    road: u16,
    limit: u16,
    obs: Obs,
)
    requires
        clean(r),
    ensures
        clean(first_seen(plate, road, obs)),
        clean(r.after(road, limit, obs)),
{
    let new = first_seen(plate, road, obs);
    assert forall|x: u16, i: int| 0 <= i < new.on_road(x).len() implies !new.ticketed.contains(
        (#[trigger] new.on_road(x)[i]).on(),
    ) by {
    }
    let after = r.after(road, limit, obs);
    assert forall|x: u16, i: int| 0 <= i < after.on_road(x).len() implies !after.ticketed.contains(
        (#[trigger] after.on_road(x)[i]).on(),
    ) by {
        if r.ticket(road, limit, obs) is Some {
            lemma_unticketed(r.on_road(x), after.ticketed);
            if r.seen.contains_key(x) {
                assert(after.on_road(x) == unticketed(r.on_road(x), after.ticketed));
            }
        } else if !r.ticketed.contains(obs.on()) {
            if x == road && i < r.on_road(road).len() {
                assert(after.on_road(x)[i] == r.on_road(road)[i]);
            } else if x != road {
                assert(after.on_road(x) == r.on_road(x));
            }
        } else {
            assert(after.on_road(x) == r.on_road(x));
        }
    }
}

/// Whether two of the observations in a list are too far apart for the time
/// between them.
pub open spec fn too_fast(list: Seq<Obs>, limit: u16) -> bool {
    exists|i: int, j: int|
        0 <= i < j < list.len() && speed(#[trigger] list[i], #[trigger] list[j]) > limit
}

/// What a camera on a road with a limit sees.
pub open spec fn sightings(road: u16, limit: u16, list: Seq<Obs>) -> Seq<Sighting> {
    list.map_values(|obs: Obs| Sighting { road, limit, obs })
}

/// On a day that has a ticket there are no more.
proof fn lemma_no_more_that_day(r: Record, road: u16, limit: u16, list: Seq<Obs>, day: u32)
    requires
        r.ticketed.contains(day),
        forall|i: int| 0 <= i < list.len() ==> (#[trigger] list[i]).on() == day,
    ensures
        issued(r, sightings(road, limit, list)).len() == 0,
    decreases list.len(),
{
    if list.len() > 0 {
        let rest = list.skip(1);
        assert(list[0].on() == day);
        assert(sightings(road, limit, list).skip(1) =~= sightings(road, limit, rest));
        assert forall|i: int| 0 <= i < rest.len() implies (#[trigger] rest[i]).on() == day by {
            assert(rest[i] == list[i + 1]);
        }
        lemma_no_more_that_day(r, road, limit, rest, day);
    }
}

/// What one day brings, where some of it has been seen already.
proof fn lemma_rest_of_the_day(
    r: Record,
    road: u16,
    limit: u16,
    list: Seq<Obs>,
    day: u32,
)
    requires
        !r.ticketed.contains(day),
        forall|i: int| 0 <= i < r.on_road(road).len() ==> (#[trigger] r.on_road(road)[i]).on() == day,
        forall|i: int| 0 <= i < list.len() ==> (#[trigger] list[i]).on() == day,
        !too_fast(r.on_road(road), limit),
    ensures
        issued(r, sightings(road, limit, list)).len() == if too_fast(
            r.on_road(road) + list,
            limit,
        ) {
            1nat
        } else {
            0nat
        },
    decreases list.len(),
{
    let before = r.on_road(road);
    if list.len() == 0 {
        assert(before + list =~= before);
    } else {
        let obs = list[0];
        let rest = list.skip(1);
        let all = before + list;
        let n = before.len() as int;
        assert(obs.on() == day);
        assert(sightings(road, limit, list).skip(1) =~= sightings(road, limit, rest));
        assert forall|i: int| 0 <= i < rest.len() implies (#[trigger] rest[i]).on() == day by {
            assert(rest[i] == list[i + 1]);
        }
        lemma_offence(before, r.ticketed, limit, obs, 0);
        let k = offence(before, r.ticketed, limit, obs, 0);
        let next = r.after(road, limit, obs);
        if k < n {
            law_speed_is_symmetric(obs, before[k]);
            assert(all[k] == before[k] && all[n] == obs);
            assert(too_fast(all, limit));
            assert(next.ticketed.contains(day));
            lemma_no_more_that_day(next, road, limit, rest, day);
        } else {
            let seen = before.push(obs);
            assert(next.on_road(road) == seen);
            assert forall|i: int| 0 <= i < seen.len() implies (#[trigger] seen[i]).on() == day by {
                if i < n {
                    assert(seen[i] == before[i]);
                }
            }
            assert(!too_fast(seen, limit)) by {
                assert forall|i: int, j: int| 0 <= i < j < seen.len() implies speed(
                    #[trigger] seen[i],
                    #[trigger] seen[j],
                ) <= limit by {
                    assert(seen[i] == before[i]);
                    law_speed_is_symmetric(obs, before[i]);
                    if j < n {
                        assert(seen[j] == before[j]);
                    } else {
                        assert(r.ticketed.contains(before[i].on()) || speed(obs, before[i])
                            <= limit);
                    }
                }
            }
            lemma_rest_of_the_day(next, road, limit, rest, day);
            assert(seen + rest =~= all);
        }
    }
}

/// What is seen of a car on one day, on one road with one limit, gives one
/// ticket where some two of the observations are too far apart for the time
/// between them, and none where no two are; so too where the first of them is
/// the first that is seen of the car at all.
pub proof fn law_one_day_gives_one_ticket_for_speeding(
    r: Record,
    road: u16,
    limit: u16,
    list: Seq<Obs>,
    day: u32,
)
    requires
        !r.ticketed.contains(day),
        r.on_road(road).len() == 0,
        forall|i: int| 0 <= i < list.len() ==> (#[trigger] list[i]).on() == day,
    ensures
        issued(r, sightings(road, limit, list)).len() == if too_fast(list, limit) {
            1nat
        } else {
            0nat
        },
        list.len() > 0 ==> issued(
            first_seen(r.plate, road, list[0]),
            sightings(road, limit, list.skip(1)),
        ).len() == if too_fast(list, limit) {
            1nat
        } else {
            0nat
        },
{
    lemma_rest_of_the_day(r, road, limit, list, day);
    assert(r.on_road(road) + list =~= list);
    if list.len() > 0 {
        let new = first_seen(r.plate, road, list[0]);
        let rest = list.skip(1);
        assert(new.on_road(road) =~= seq![list[0]]);
        assert forall|i: int| 0 <= i < rest.len() implies (#[trigger] rest[i]).on() == day by {
            assert(rest[i] == list[i + 1]);
        }
        lemma_rest_of_the_day(new, road, limit, rest, day);
        assert(new.on_road(road) + rest =~= list);
    }
}

/// The order in which a day's observations come makes no difference to whether
/// there is a ticket.
pub proof fn law_order_makes_no_difference_to_a_day(
    r: Record,
    road: u16,
    limit: u16,
    list: Seq<Obs>,
    other: Seq<Obs>,
    day: u32,
)
    requires
        !r.ticketed.contains(day),
        r.on_road(road).len() == 0,
        forall|i: int| 0 <= i < list.len() ==> (#[trigger] list[i]).on() == day,
        list.to_multiset() == other.to_multiset(),
    ensures
        issued(r, sightings(road, limit, list)).len() == issued(
            r,
            sightings(road, limit, other),
        ).len(),
{
    lemma_same_pairs(list, other, limit);
    lemma_same_pairs(other, list, limit);
    assert forall|i: int| 0 <= i < other.len() implies (#[trigger] other[i]).on() == day by {
        list.to_multiset_ensures();
        other.to_multiset_ensures();
        assert(other.contains(other[i]));
        assert(list.to_multiset().count(other[i]) > 0);
        assert(list.contains(other[i]));
        let k = list.index_of(other[i]);
        assert(list[k].on() == day);
    }
    law_one_day_gives_one_ticket_for_speeding(r, road, limit, list, day);
    law_one_day_gives_one_ticket_for_speeding(r, road, limit, other, day);
}

/// Two observations that are too far apart are so in whatever order.
proof fn lemma_same_pairs(list: Seq<Obs>, other: Seq<Obs>, limit: u16)
    requires
        list.to_multiset() == other.to_multiset(),
    ensures
        too_fast(list, limit) ==> too_fast(other, limit),
{
    if too_fast(list, limit) {
        let (i, j) = choose|i: int, j: int|
            0 <= i < j < list.len() && speed(#[trigger] list[i], #[trigger] list[j]) > limit;
        list.to_multiset_ensures();
        other.to_multiset_ensures();
        assert(list.contains(list[i]) && list.contains(list[j]));
        assert(other.to_multiset().count(list[i]) > 0 && other.to_multiset().count(list[j]) > 0);
        assert(other.contains(list[i]) && other.contains(list[j]));
        let a = other.index_of(list[i]);
        let b = other.index_of(list[j]);
        law_speed_is_symmetric(list[i], list[j]);
        assert(a != b);
        if a < b {
            assert(speed(other[a], other[b]) > limit);
        } else {
            assert(speed(other[b], other[a]) > limit);
        }
    }
}

/// The speed in miles and seconds: with `d` miles and `t` seconds between two
/// observations, as many hundredths of a mile per hour as go into the way, and
/// not one more, however long it took; zero where they are more than a word of
/// sixteen bits holds, or where no time passed.
pub proof fn law_speed_in_miles_and_seconds(a: Obs, b: Obs)
    ensures
        a.timestamp == b.timestamp ==> speed(a, b) == 0,
        a.timestamp != b.timestamp ==> ({
            let d = if a.mile < b.mile {
                b.mile - a.mile
            } else {
                a.mile - b.mile
            };
            let t = if a.timestamp < b.timestamp {
                b.timestamp - a.timestamp
            } else {
                a.timestamp - b.timestamp
            };
            let v = speed(a, b);
            &&& 360000 * d < 65536 * t ==> v * t <= 360000 * d < (v + 1) * t
            &&& 360000 * d >= 65536 * t ==> v == 0
        }),
{
    if a.timestamp != b.timestamp {
        let d = apart(a.mile as int, b.mile as int);
        let t = apart(a.timestamp as int, b.timestamp as int);
        let n = 360000 * d;
        assert(d * 100 * 3600 == n);
        let q = n / t;
        assert(q >= 0 && q * t <= n < (q + 1) * t) by (nonlinear_arith)
            requires
                t > 0,
                n >= 0,
                q == n / t,
        ;
        if n < 65536 * t {
            assert(q < 65536) by (nonlinear_arith)
                requires
                    q * t <= n,
                    n < 65536 * t,
                    t > 0,
            ;
        } else {
            assert(q >= 65536) by (nonlinear_arith)
                requires
                    n < (q + 1) * t,
                    n >= 65536 * t,
                    t > 0,
            ;
        }
    }
}

/// The day of an observation: as many whole days of eighty-six thousand four
/// hundred seconds as have passed.
pub proof fn law_days(o: Obs)
    ensures
        o.on() * 86400 <= o.timestamp < (o.on() + 1) * 86400,
{
}

/// A car that was seen on a road, on a day without a ticket, and is seen there
/// again, on such a day, so far away that it can only have come faster than the
/// limit, gets a ticket, however long it took.
pub proof fn law_too_far_for_the_time_is_ticketed(
    r: Record,
    road: u16,
    limit: u16,
    obs: Obs,
    i: int,
)
    requires
        r.seen.contains_key(road),
        0 <= i < r.seen[road].len(),
        !r.ticketed.contains(obs.timestamp / 86400),
        !r.ticketed.contains(r.seen[road][i].timestamp / 86400),
        obs.timestamp != r.seen[road][i].timestamp,
        ({
            let prev = r.seen[road][i];
            let d = if obs.mile < prev.mile {
                prev.mile - obs.mile
            } else {
                obs.mile - prev.mile
            };
            let t = if obs.timestamp < prev.timestamp {
                prev.timestamp - obs.timestamp
            } else {
                obs.timestamp - prev.timestamp
            };
            (limit + 1) * t <= 360000 * d < 65536 * t
        }),
    ensures
        r.ticket(road, limit, obs) is Some,
{
    let prev = r.seen[road][i];
    law_speed_in_miles_and_seconds(obs, prev);
    let d = apart(obs.mile as int, prev.mile as int);
    let t = apart(obs.timestamp as int, prev.timestamp as int);
    let v = speed(obs, prev);
    assert(v > limit) by (nonlinear_arith)
        requires
            360000 * d < (v + 1) * t,
            (limit + 1) * t <= 360000 * d,
            t > 0,
    ;
    law_speeding_is_ticketed(r, road, limit, obs);
    assert(r.on_road(road)[i] == prev);
    assert(!r.ticketed.contains(r.on_road(road)[i].on()));
}

/// What a ticket says is true: its two ends are the new observation and an
/// earlier report on that road, the first in time first, neither on a day with
/// a ticket, and its speed is the one between them, above the limit.
pub proof fn law_what_tickets_say(r: Record, road: u16, limit: u16, obs: Obs)
    ensures
        r.ticket(road, limit, obs) matches Some(t) ==> {
            let d = if t.start.mile < t.end.mile {
                t.end.mile - t.start.mile
            } else {
                t.start.mile - t.end.mile
            };
            let secs = t.end.timestamp - t.start.timestamp;
            &&& t.plate == r.plate
            &&& t.road == road
            &&& secs > 0
            &&& t.speed * secs <= 360000 * d < (t.speed + 1) * secs
            &&& t.speed > limit
            &&& t.start == obs || t.end == obs
            &&& r.seen.contains_key(road)
            &&& r.seen[road].contains(
                if t.start == obs {
                    t.end
                } else {
                    t.start
                },
            )
            &&& !r.ticketed.contains(t.start.timestamp / 86400)
            &&& !r.ticketed.contains(t.end.timestamp / 86400)
        },
{
    law_tickets_are_earned(r, road, limit, obs);
    if let Some(t) = r.ticket(road, limit, obs) {
        law_speed_in_miles_and_seconds(t.start, t.end);
        let d = apart(t.start.mile as int, t.end.mile as int);
        let secs = t.end.timestamp - t.start.timestamp;
        if 360000 * d >= 65536 * secs {
            assert(speed(t.start, t.end) == 0);
        }
        if t.start == obs && !r.on_road(road).contains(t.end) {
            assert(t.end == obs);
        }
    }
}

/// Of the observations that a new one could be ticketed with, the first that
/// was reported is the one on the ticket.
pub proof fn law_the_first_report_is_on_the_ticket(
    r: Record,
    road: u16,
    limit: u16,
    obs: Obs,
    k: int,
)
    requires
        r.seen.contains_key(road),
        0 <= k < r.seen[road].len(),
        !r.ticketed.contains(obs.timestamp / 86400),
        !r.ticketed.contains(r.seen[road][k].timestamp / 86400),
        speed(obs, r.seen[road][k]) > limit,
        forall|j: int|
            0 <= j < k ==> r.ticketed.contains((#[trigger] r.seen[road][j]).timestamp / 86400)
                || speed(obs, r.seen[road][j]) <= limit,
    ensures
        r.ticket(road, limit, obs) matches Some(t) && (if obs.timestamp
            > r.seen[road][k].timestamp {
            t.start == r.seen[road][k] && t.end == obs
        } else {
            t.start == obs && t.end == r.seen[road][k]
        }),
{
    let list = r.on_road(road);
    lemma_offence(list, r.ticketed, limit, obs, 0);
    let i = offence(list, r.ticketed, limit, obs, 0);
    assert(!r.ticketed.contains(list[k].on()));
    if i < k {
        assert(list[i] == r.seen[road][i]);
    } else if i > k {
        assert(r.ticketed.contains(list[k].on()) || speed(obs, list[k]) <= limit);
    }
}

/// What a record keeps: nothing of an observation on a day with a ticket;
/// where there is no ticket, the observation behind those on the same road;
/// and where there is one, its two days, and of all observations those of days
/// that have none still.
pub proof fn law_what_records_keep(r: Record, road: u16, limit: u16, obs: Obs, x: u16)
    ensures
        ({
            let after = r.after(road, limit, obs);
            let before_x = if r.seen.contains_key(x) {
                r.seen[x]
            } else {
                Seq::empty()
            };
            let after_x = if after.seen.contains_key(x) {
                after.seen[x]
            } else {
                Seq::empty()
            };
            &&& after.plate == r.plate
            &&& match r.ticket(road, limit, obs) {
                Some(t) => {
                    &&& after.ticketed == r.ticketed.insert(t.start.timestamp / 86400).insert(
                        t.end.timestamp / 86400,
                    )
                    &&& after_x == before_x.filter(
                        |o: Obs| !after.ticketed.contains(o.timestamp / 86400),
                    )
                },
                None => {
                    &&& after.ticketed == r.ticketed
                    &&& after_x == if x == road && !r.ticketed.contains(obs.timestamp / 86400) {
                        before_x.push(obs)
                    } else {
                        before_x
                    }
                },
            }
        }),
{
    let after = r.after(road, limit, obs);
    let before_x = if r.seen.contains_key(x) {
        r.seen[x]
    } else {
        Seq::empty()
    };
    lemma_unticketed_is_filter(before_x, after.ticketed);
}

/// What is left is what a filter leaves.
proof fn lemma_unticketed_is_filter(list: Seq<Obs>, ticketed: Set<u32>)
    ensures
        unticketed(list, ticketed) == list.filter(
            |o: Obs| !ticketed.contains(o.timestamp / 86400),
        ),
    decreases list.len(),
{
    reveal(Seq::filter);
    if list.len() > 0 {
        lemma_unticketed_is_filter(list.drop_last(), ticketed);
    }
}

} // verus!
