//! What holds of the server as a whole.

use vstd::multiset::Multiset;
use vstd::prelude::*;

use crate::speed::bio::LPString;
use crate::speed::events::Event;
use crate::speed::obs::{Infraction, Obs, Record, Ticket};
use crate::speed::server::{
    all_relieved, available, first, happens, listed, relieved, swapped_out, Delivery, Desk,
};

verus! {

/// How often `x` stands in `s`.
pub open spec fn times<T>(s: Seq<T>, x: T) -> nat
    decreases s.len(),
{
    if s.len() == 0 {
        0
    } else {
        times(s.drop_last(), x) + if s.last() == x {
            1nat
        } else {
            0nat
        }
    }
}

/// How often `x` stands in a list that has been added to.
proof fn lemma_times_push<T>(s: Seq<T>, y: T, x: T)
    ensures
        times(s.push(y), x) == times(s, x) + if y == x {
            1nat
        } else {
            0nat
        },
{
    assert(s.push(y).drop_last() =~= s);
}

/// How often `x` stands in two lists together.
proof fn lemma_times_concat<T>(a: Seq<T>, b: Seq<T>, x: T)
    ensures
        times(a + b, x) == times(a, x) + times(b, x),
    decreases b.len(),
{
    if b.len() == 0 {
        assert(a + b =~= a);
    } else {
        lemma_times_concat(a, b.drop_last(), x);
        assert((a + b).drop_last() =~= a + b.drop_last());
    }
}

/// What a list holds stands in it at least once.
proof fn lemma_times_contains<T>(s: Seq<T>, x: T)
    ensures
        times(s, x) > 0 <==> s.contains(x),
    decreases s.len(),
{
    if s.len() > 0 {
        lemma_times_contains(s.drop_last(), x);
        if s.contains(x) && s.last() != x {
            let i = s.index_of(x);
            assert(s.drop_last()[i] == x);
        }
        if s.drop_last().contains(x) {
            let i = s.drop_last().index_of(x);
            assert(s[i] == x);
        }
    }
}

/// How often `x` stands in a list in which one element was replaced.
proof fn lemma_times_update<T>(s: Seq<T>, i: int, y: T, x: T)
    requires
        0 <= i < s.len(),
    ensures
        times(s.update(i, y), x) + if s[i] == x {
            1nat
        } else {
            0nat
        } == times(s, x) + if y == x {
            1nat
        } else {
            0nat
        },
    decreases s.len(),
{
    if i == s.len() - 1 {
        assert(s.update(i, y).drop_last() =~= s.drop_last());
    } else {
        lemma_times_update(s.drop_last(), i, y, x);
        assert(s.update(i, y).drop_last() =~= s.drop_last().update(i, y));
    }
}

/// Where an element first stands, it stands.
proof fn lemma_first<T>(s: Seq<T>, x: T, from: int)
    requires
        0 <= from <= s.len(),
    ensures
        from <= first(s, x, from) <= s.len(),
        first(s, x, from) < s.len() ==> s[first(s, x, from)] == x,
        forall|j: int| from <= j < first(s, x, from) ==> s[j] != x,
    decreases s.len() - from,
{
    if from < s.len() && s[from] != x {
        lemma_first(s, x, from + 1);
    }
}

/// Taking a dispatcher off a road takes off one entry of it, if there is one,
/// and touches nothing else.
proof fn lemma_relieved(c: Map<u16, Seq<usize>>, id: usize, road: u16, r: u16, x: usize)
    requires
        forall|k: u16| #[trigger] c.contains_key(k) ==> c[k].len() > 0,
    ensures
        forall|k: u16| #[trigger]
            relieved(c, id, road).contains_key(k) ==> relieved(c, id, road)[k].len() > 0,
        times(listed(relieved(c, id, road), r), x) == times(listed(c, r), x) - if r == road && x
            == id && times(listed(c, r), x) > 0 {
            1int
        } else {
            0int
        },
{
    let ids = listed(c, road);
    let i = first(ids, id, 0);
    lemma_first(ids, id, 0);
    lemma_times_contains(ids, id);
    if i < ids.len() {
        lemma_times_update(ids, i, ids.last(), x);
        let u = ids.update(i, ids.last());
        assert(u.last() == ids.last());
        assert(times(swapped_out(ids, i), x) == times(ids, x) - if ids[i] == x {
            1int
        } else {
            0int
        });
        if ids.len() == 1 {
            assert(swapped_out(ids, i) =~= Seq::<usize>::empty());
        }
        assert(ids.contains(id)) by {
            assert(ids[i] == id);
        }
    } else {
        if ids.contains(id) {
            let j = ids.index_of(id);
            assert(ids[j] == id);
            assert(false);
        }
    }
}

/// Taking a dispatcher off roads takes off one entry of it for each of them.
proof fn lemma_all_relieved(
    c: Map<u16, Seq<usize>>,
    id: usize,
    roads: Seq<u16>,
    r: u16,
    x: usize,
)
    requires
        forall|k: u16| #[trigger] c.contains_key(k) ==> c[k].len() > 0,
        times(listed(c, r), id) >= times(roads, r),
    ensures
        forall|k: u16| #[trigger]
            all_relieved(c, id, roads).contains_key(k) ==> all_relieved(c, id, roads)[k].len() > 0,
        times(listed(all_relieved(c, id, roads), r), x) == times(listed(c, r), x) - if x == id {
            times(roads, r) as int
        } else {
            0int
        },
    decreases roads.len(),
{
    if roads.len() > 0 {
        lemma_all_relieved(c, id, roads.drop_last(), r, x);
        lemma_relieved(all_relieved(c, id, roads.drop_last()), id, roads.last(), r, x);
    }
}

/// Taking on roads adds one entry for each of them, and leaves no ticket
/// waiting for any.
proof fn lemma_cover_all(d: Desk, id: usize, roads: Seq<u16>, r: u16, x: usize)
    ensures
        ({
            let after = d.cover_all(id, roads);
            &&& after.unidentified == d.unidentified
            &&& after.dispatchers == d.dispatchers
            &&& after.cars == d.cars
            &&& times(after.on_duty(r), x) == times(d.on_duty(r), x) + if x == id {
                times(roads, r)
            } else {
                0nat
            }
            &&& after.waiting(r) == if times(roads, r) > 0 {
                Seq::empty()
            } else {
                d.waiting(r)
            }
            &&& (forall|k: u16| #[trigger] d.coverage.contains_key(k) ==> d.coverage[k].len() > 0)
                ==> (forall|k: u16| #[trigger]
                after.coverage.contains_key(k) ==> after.coverage[k].len() > 0)
        }),
    decreases roads.len(),
{
    if roads.len() > 0 {
        lemma_cover_all(d, id, roads.drop_last(), r, x);
        let mid = d.cover_all(id, roads.drop_last());
        lemma_times_push(mid.on_duty(roads.last()), id, x);
    }
}

impl Desk {
    /// Whether the books are in order:
    /// - the coverage lists a dispatcher for a road as often as the
    ///   dispatcher has named that road, and nobody else;
    /// - no ticket waits for a road that a dispatcher is on duty for;
    /// - tickets wait under their own road, and cars are filed under their
    ///   own plate;
    /// - no dispatcher counts as unidentified.
    pub open spec fn in_order(self) -> bool {
        &&& forall|road: u16, id: usize| #[trigger]
            times(self.on_duty(road), id) == if self.dispatchers.contains_key(id) {
                times(self.dispatchers[id], road)
            } else {
                0
            }
        &&& forall|road: u16| #[trigger]
            self.coverage.contains_key(road) ==> self.coverage[road].len() > 0
        &&& forall|road: u16|
            (#[trigger] self.waiting(road)).len() > 0 ==> self.on_duty(road).len() == 0
        &&& forall|road: u16, i: int|
            0 <= i < self.waiting(road).len() ==> (#[trigger] self.waiting(road)[i]).road == road
        &&& forall|plate: Seq<u8>| #[trigger]
            self.cars.contains_key(plate) ==> self.cars[plate].plate == plate
        &&& forall|id: usize| #[trigger]
            self.dispatchers.contains_key(id) ==> !self.unidentified.contains(id)
    }
}

/// Where nothing has happened, and when somebody new connects, the books are
/// in order.
pub proof fn law_books_start_in_order(d: Desk, id: usize)
    ensures
        (Desk {
            unidentified: Set::empty(),
            dispatchers: Map::empty(),
            coverage: Map::empty(),
            tickets: Map::empty(),
            cars: Map::empty(),
        }).in_order(),
        d.in_order() && !d.dispatchers.contains_key(id) ==> (Desk {
            unidentified: d.unidentified.insert(id),
            ..d
        }).in_order(),
{
    let after = Desk { unidentified: d.unidentified.insert(id), ..d };
    if d.in_order() {
        assert forall|road: u16, x: usize| #[trigger]
            times(after.on_duty(road), x) == if after.dispatchers.contains_key(x) {
                times(after.dispatchers[x], road)
            } else {
                0
            } by {
            assert(after.on_duty(road) == d.on_duty(road));
        }
        assert forall|road: u16| (#[trigger] after.waiting(road)).len() > 0 implies after.on_duty(
            road,
        ).len() == 0 by {
            assert(after.waiting(road) == d.waiting(road));
        }
        assert forall|road: u16, i: int| 0 <= i < after.waiting(road).len() implies (
        #[trigger] after.waiting(road)[i]).road == road by {
            assert(after.waiting(road) == d.waiting(road));
        }
    }
}

/// Whatever happens, the books stay in order.
pub proof fn law_books_stay_in_order(
    before: Desk,
    e: Event,
    after: Desk,
    sent: Seq<Delivery>,
)
    requires
        before.in_order(),
        happens(before, e, after, sent),
    ensures
        after.in_order(),
{
    match e {
        Event::Camera { id } => {
            lemma_same_lists(before, after);
        },
        Event::Dispatcher { id, roads } => {
            if before.unidentified.contains(id) {
                lemma_enlisting_keeps_order(before, id, roads@);
            }
        },
        Event::Gone { id } => {
            if before.dispatchers.contains_key(id) {
                lemma_leaving_keeps_order(before, id);
            } else {
                lemma_same_lists(before, after);
            }
        },
        Event::Observation { plate, road, limit, pos } => {
            match before.ticket(plate@, road, limit, pos) {
                Some(t) => if before.taker(road) is None {
                    lemma_storing_keeps_order(before, after, road);
                } else {
                    lemma_same_lists(before, after);
                },
                None => {
                    lemma_same_lists(before, after);
                },
            }
        },
    }
}

/// Books with the same lists are in the same order.
proof fn lemma_same_lists(before: Desk, after: Desk)
    requires
        before.in_order(),
        after.coverage == before.coverage,
        after.tickets == before.tickets,
        after.dispatchers == before.dispatchers,
        after.unidentified.subset_of(before.unidentified),
        forall|plate: Seq<u8>| #[trigger]
            after.cars.contains_key(plate) ==> after.cars[plate].plate == plate,
    ensures
        after.in_order(),
{
    assert forall|road: u16, x: usize| #[trigger]
        times(after.on_duty(road), x) == if after.dispatchers.contains_key(x) {
            times(after.dispatchers[x], road)
        } else {
            0
        } by {
        assert(after.on_duty(road) == before.on_duty(road));
    }
    assert forall|road: u16| (#[trigger] after.waiting(road)).len() > 0 implies after.on_duty(
        road,
    ).len() == 0 by {
        assert(after.waiting(road) == before.waiting(road));
    }
    assert forall|road: u16, i: int| 0 <= i < after.waiting(road).len() implies (
    #[trigger] after.waiting(road)[i]).road == road by {
        assert(after.waiting(road) == before.waiting(road));
    }
}

/// A ticket is stored where nobody is on duty.
proof fn lemma_storing_keeps_order(before: Desk, after: Desk, road: u16)
    requires
        before.in_order(),
        before.taker(road) is None,
        after.coverage == before.coverage,
        after.dispatchers == before.dispatchers,
        after.unidentified == before.unidentified,
        after.tickets == before.tickets.insert(road, after.waiting(road)),
        after.waiting(road).len() == before.waiting(road).len() + 1,
        after.waiting(road).drop_last() == before.waiting(road),
        after.waiting(road).last().road == road,
        forall|plate: Seq<u8>| #[trigger]
            after.cars.contains_key(plate) ==> after.cars[plate].plate == plate,
    ensures
        after.in_order(),
{
    let ids = before.on_duty(road);
    if ids.len() > 0 {
        lemma_times_contains(ids, ids[0]);
        assert(ids.contains(ids[0]));
        assert(times(before.on_duty(road), ids[0]) > 0);
        assert(before.dispatchers.dom().contains(ids[0]));
        assert(false);
    }
    assert forall|r: u16, x: usize| #[trigger]
        times(after.on_duty(r), x) == if after.dispatchers.contains_key(x) {
            times(after.dispatchers[x], r)
        } else {
            0
        } by {
        assert(after.on_duty(r) == before.on_duty(r));
    }
    assert forall|r: u16| (#[trigger] after.waiting(r)).len() > 0 implies after.on_duty(r).len()
        == 0 by {
        assert(after.on_duty(r) == before.on_duty(r));
        if r != road {
            assert(after.waiting(r) == before.waiting(r));
        }
    }
    assert forall|r: u16, i: int| 0 <= i < after.waiting(r).len() implies (
    #[trigger] after.waiting(r)[i]).road == r by {
        if r != road {
            assert(after.waiting(r) == before.waiting(r));
        } else if i < before.waiting(r).len() {
            assert(after.waiting(r)[i] == after.waiting(r).drop_last()[i]);
            assert(before.waiting(r)[i].road == r);
        }
    }
}

/// A dispatcher that leaves is taken off all its roads.
proof fn lemma_leaving_keeps_order(before: Desk, id: usize)
    requires
        before.in_order(),
        before.dispatchers.contains_key(id),
    ensures
        before.left(id).in_order(),
{
    let after = before.left(id);
    let roads = before.dispatchers[id];
    assert forall|r: u16, x: usize| #[trigger]
        times(after.on_duty(r), x) == if after.dispatchers.contains_key(x) {
            times(after.dispatchers[x], r)
        } else {
            0
        } by {
        assert(times(before.on_duty(r), id) == times(roads, r));
        assert(times(before.on_duty(r), x) >= 0);
        lemma_all_relieved(before.coverage, id, roads, r, x);
    }
    assert(times(before.on_duty(0), id) == times(roads, 0));
    lemma_all_relieved(before.coverage, id, roads, 0, id);
    assert forall|r: u16| (#[trigger] after.waiting(r)).len() > 0 implies after.on_duty(r).len()
        == 0 by {
        assert(after.waiting(r) == before.waiting(r));
        let ids = after.on_duty(r);
        if ids.len() > 0 {
            let x = ids[0];
            lemma_times_contains(ids, x);
            assert(ids.contains(x));
            assert(times(before.on_duty(r), id) == times(roads, r));
            lemma_all_relieved(before.coverage, id, roads, r, x);
            lemma_times_contains(before.on_duty(r), x);
            assert(before.on_duty(r).len() == 0);
            assert(false);
        }
    }
    assert forall|r: u16, i: int| 0 <= i < after.waiting(r).len() implies (
    #[trigger] after.waiting(r)[i]).road == r by {
        assert(after.waiting(r) == before.waiting(r));
    }
}

/// A dispatcher that is enlisted is on duty for all its roads.
proof fn lemma_enlisting_keeps_order(before: Desk, id: usize, roads: Seq<u16>)
    requires
        before.in_order(),
        before.unidentified.contains(id),
    ensures
        before.enlisted(id, roads).in_order(),
{
    let after = before.enlisted(id, roads);
    let mid = before.cover_all(id, roads);
    lemma_cover_all(before, id, roads, 0, 0);
    assert(!before.dispatchers.contains_key(id));
    assert forall|r: u16, x: usize| #[trigger]
        times(after.on_duty(r), x) == if after.dispatchers.contains_key(x) {
            times(after.dispatchers[x], r)
        } else {
            0
        } by {
        lemma_cover_all(before, id, roads, r, x);
        assert(after.on_duty(r) == mid.on_duty(r));
        assert(times(before.on_duty(r), x) >= 0);
    }
    assert forall|r: u16| (#[trigger] after.waiting(r)).len() > 0 implies after.on_duty(r).len()
        == 0 by {
        assert(after.waiting(r) == mid.waiting(r));
        assert(after.on_duty(r) == mid.on_duty(r));
        lemma_cover_all(before, id, roads, r, id);
        assert(before.waiting(r).len() > 0);
        let ids = mid.on_duty(r);
        if ids.len() > 0 {
            let x = ids[0];
            lemma_times_contains(ids, x);
            assert(ids.contains(x));
            lemma_cover_all(before, id, roads, r, x);
            lemma_times_contains(before.on_duty(r), x);
            assert(false);
        }
    }
    assert forall|r: u16, i: int| 0 <= i < after.waiting(r).len() implies (
    #[trigger] after.waiting(r)[i]).road == r by {
        assert(after.waiting(r) == mid.waiting(r));
        lemma_cover_all(before, id, roads, r, id);
        assert(before.waiting(r)[i].road == r);
    }
}

/// Who is available is one of those asked, and a dispatcher.
proof fn lemma_available(ids: Seq<usize>, dispatchers: Set<usize>)
    ensures
        available(ids, dispatchers) matches Some(id) ==> ids.contains(id) && dispatchers.contains(
            id,
        ),
        available(ids, dispatchers) is None ==> forall|id: usize|
            ids.contains(id) ==> !dispatchers.contains(id),
    decreases ids.len(),
{
    if ids.len() > 0 {
        if dispatchers.contains(ids[0]) {
            assert(ids.contains(ids[0]));
        } else {
            let rest = ids.skip(1);
            lemma_available(rest, dispatchers);
            assert forall|id: usize| ids.contains(id) && id != ids[0] implies rest.contains(id) by {
                let i = ids.index_of(id);
                assert(rest[i - 1] == id);
            }
            assert forall|id: usize| rest.contains(id) implies ids.contains(id) by {
                let i = rest.index_of(id);
                assert(ids[i + 1] == id);
            }
        }
    }
}

/// A ticket goes to a dispatcher who looks after its road, and it waits only
/// where there is none.
pub proof fn law_tickets_go_to_who_looks_after_the_road(d: Desk, road: u16)
    requires
        d.in_order(),
    ensures
        d.taker(road) matches Some(id) ==> d.dispatchers.contains_key(id)
            && d.dispatchers[id].contains(road),
        d.taker(road) is None ==> forall|id: usize| #[trigger]
            d.dispatchers.contains_key(id) ==> !d.dispatchers[id].contains(road),
{
    let ids = d.on_duty(road);
    lemma_available(ids, d.dispatchers.dom());
    match d.taker(road) {
        Some(id) => {
            lemma_times_contains(ids, id);
            assert(times(d.on_duty(road), id) > 0);
            lemma_times_contains(d.dispatchers[id], road);
        },
        None => {
            assert forall|id: usize| #[trigger] d.dispatchers.contains_key(id) implies !(
            d.dispatchers[id].contains(road)) by {
                lemma_times_contains(d.dispatchers[id], road);
                lemma_times_contains(ids, id);
                assert(times(d.on_duty(road), id) == times(d.dispatchers[id], road));
            }
        },
    }
}

/// A dispatcher that is enlisted is handed each ticket that waits for one of
/// its roads, as often as it waits; what waits for other roads goes on
/// waiting.
pub proof fn law_backlog_is_handed_over(d: Desk, id: usize, roads: Seq<u16>, t: Infraction)
    requires
        d.in_order(),
    ensures
        times(d.backlog(id, roads), t) + times(d.cover_all(id, roads).waiting(t.road), t) == times(
            d.waiting(t.road),
            t,
        ),
        roads.contains(t.road) ==> d.cover_all(id, roads).waiting(t.road).len() == 0,
        !roads.contains(t.road) ==> d.cover_all(id, roads).waiting(t.road) == d.waiting(t.road),
    decreases roads.len(),
{
    lemma_cover_all(d, id, roads, t.road, id);
    lemma_times_contains(roads, t.road);
    if roads.len() > 0 {
        let road = roads.last();
        let mid = d.cover_all(id, roads.drop_last());
        law_backlog_is_handed_over(d, id, roads.drop_last(), t);
        lemma_times_concat(d.backlog(id, roads.drop_last()), mid.waiting(road), t);
        if road != t.road {
            lemma_cover_all(d, id, roads.drop_last(), road, id);
            lemma_times_contains(mid.waiting(road), t);
            if mid.waiting(road).contains(t) {
                let i = mid.waiting(road).index_of(t);
                assert(d.waiting(road)[i].road == road);
                assert(false);
            }
        }
    }
}

/// What is known of a car changes only when that car is observed, and then as
/// the record of one car does; a car that is observed for the first time has
/// no ticket.
pub proof fn law_cars_are_kept_apart(
    before: Desk,
    e: Event,
    after: Desk,
    sent: Seq<Delivery>,
    plate: Seq<u8>,
)
    requires
        happens(before, e, after, sent),
    ensures
        !(e matches Event::Observation { plate: p, .. } && p@ == plate) ==> {
            &&& after.cars.contains_key(plate) == before.cars.contains_key(plate)
            &&& before.cars.contains_key(plate) ==> after.cars[plate] == before.cars[plate]
        },
        e matches Event::Observation { plate: p, road, limit, pos } ==> {
            &&& after.cars.contains_key(p@)
            &&& before.cars.contains_key(p@) ==> after.cars[p@] == before.cars[p@].after(
                road,
                limit,
                pos,
            )
            &&& !before.cars.contains_key(p@) ==> after.cars[p@].ticketed == Set::<u32>::empty()
        },
{
    if let Event::Dispatcher { id, roads } = e {
        if before.unidentified.contains(id) {
            lemma_cover_all(before, id, roads@, 0, id);
        }
    }
}

/// The tickets that wait for the roads below a number.
pub open spec fn held(tickets: Map<u16, Seq<Infraction>>, below: nat) -> Multiset<Ticket>
    decreases below,
{
    if below == 0 {
        Multiset::empty()
    } else {
        let road = (below - 1) as u16;
        let rest = held(tickets, (below - 1) as nat);
        if tickets.contains_key(road) {
            rest.add(tickets[road].map_values(|t: Infraction| t@).to_multiset())
        } else {
            rest
        }
    }
}

/// All the tickets that wait.
pub open spec fn all_held(d: Desk) -> Multiset<Ticket> {
    held(d.tickets, 65536)
}

/// The tickets that are delivered.
pub open spec fn handed_out(sent: Seq<Delivery>) -> Multiset<Ticket> {
    sent.map_values(|d: Delivery| d.ticket@).to_multiset()
}

/// What an event leads to: the ticket of an observation, or none.
pub open spec fn led_to(d: Desk, e: Event) -> Multiset<Ticket> {
    match e {
        Event::Observation { plate, road, limit, pos } => if d.cars.contains_key(plate@) {
            match d.cars[plate@].ticket(road, limit, pos) {
                Some(t) => Multiset::singleton(t),
                None => Multiset::empty(),
            }
        } else {
            Multiset::empty()
        },
        _ => Multiset::empty(),
    }
}

/// What waits changes by what changes for one road.
proof fn lemma_held_changes(
    a: Map<u16, Seq<Infraction>>,
    b: Map<u16, Seq<Infraction>>,
    road: u16,
    below: nat,
)
    requires
        below <= 65536,
        forall|x: u16|
            x != road ==> listed(a, x) == #[trigger] listed(b, x),
    ensures
        held(b, below).add(
            if below > road {
                listed(a, road).map_values(|t: Infraction| t@).to_multiset()
            } else {
                Multiset::empty()
            },
        ) == held(a, below).add(
            if below > road {
                listed(b, road).map_values(|t: Infraction| t@).to_multiset()
            } else {
                Multiset::empty()
            },
        ),
    decreases below,
{
    broadcast use vstd::multiset::group_multiset_axioms;

    let none = Seq::<Infraction>::empty().map_values(|t: Infraction| t@);
    assert(none =~= Seq::<Ticket>::empty());
    none.to_multiset_ensures();
    assert(none.to_multiset() =~= Multiset::<Ticket>::empty());
    if below > 0 {
        let last = (below - 1) as u16;
        lemma_held_changes(a, b, road, (below - 1) as nat);
        assert(last == road || listed(a, last) == listed(b, last));
        let wa = listed(a, last).map_values(|t: Infraction| t@).to_multiset();
        let wb = listed(b, last).map_values(|t: Infraction| t@).to_multiset();
        let ha = held(a, (below - 1) as nat);
        let hb = held(b, (below - 1) as nat);
        assert(held(a, below) =~= ha.add(wa));
        assert(held(b, below) =~= hb.add(wb));
        let ra = listed(a, road).map_values(|t: Infraction| t@).to_multiset();
        let rb = listed(b, road).map_values(|t: Infraction| t@).to_multiset();
        if last == road {
            assert(hb.add(Multiset::empty()) =~= hb);
            assert(ha.add(Multiset::empty()) =~= ha);
            assert(hb.add(wb).add(wa) =~= ha.add(wa).add(wb));
        } else if below - 1 > road {
            assert(hb.add(wb).add(ra) =~= hb.add(ra).add(wb));
            assert(ha.add(wa).add(rb) =~= ha.add(rb).add(wa));
        } else {
            assert(hb.add(Multiset::empty()) =~= hb);
            assert(ha.add(Multiset::empty()) =~= ha);
            assert(hb.add(wb).add(Multiset::empty()) =~= ha.add(wa).add(Multiset::empty()));
        }
    }
}

/// The tickets of two lists together are those of each.
proof fn lemma_tickets_concat(a: Seq<Infraction>, b: Seq<Infraction>)
    ensures
        (a + b).map_values(|t: Infraction| t@).to_multiset() == a.map_values(
            |t: Infraction| t@,
        ).to_multiset().add(b.map_values(|t: Infraction| t@).to_multiset()),
{
    let x = a.map_values(|t: Infraction| t@);
    let y = b.map_values(|t: Infraction| t@);
    vstd::seq_lib::lemma_multiset_commutative(x, y);
    assert((a + b).map_values(|t: Infraction| t@) =~= x + y);
}

/// What a dispatcher is handed is what no longer waits.
proof fn lemma_backlog_no_longer_waits(d: Desk, id: usize, roads: Seq<u16>)
    ensures
        all_held(d.cover_all(id, roads)).add(
            d.backlog(id, roads).map_values(|t: Infraction| t@).to_multiset(),
        ) == all_held(d),
    decreases roads.len(),
{
    broadcast use vstd::multiset::group_multiset_axioms;

    let view = |t: Infraction| t@;
    let none = Seq::<Infraction>::empty().map_values(view);
    assert(none =~= Seq::<Ticket>::empty());
    none.to_multiset_ensures();
    assert(none.to_multiset() =~= Multiset::<Ticket>::empty());
    if roads.len() == 0 {
        assert(d.backlog(id, roads).map_values(view) =~= none);
        assert(all_held(d).add(Multiset::empty()) =~= all_held(d));
    } else {
        let road = roads.last();
        let less = roads.drop_last();
        let mid = d.cover_all(id, less);
        let after = mid.cover(id, road);
        lemma_backlog_no_longer_waits(d, id, less);
        assert forall|x: u16| x != road implies listed(mid.tickets, x) == #[trigger] listed(
            after.tickets,
            x,
        ) by {}
        lemma_held_changes(mid.tickets, after.tickets, road, 65536);
        lemma_tickets_concat(d.backlog(id, less), mid.waiting(road));
        assert(listed(after.tickets, road) =~= Seq::<Infraction>::empty());
        let w = mid.waiting(road).map_values(view).to_multiset();
        let b = d.backlog(id, less).map_values(view).to_multiset();
        assert(all_held(after).add(w) =~= all_held(mid));
        assert(all_held(after).add(b.add(w)) =~= all_held(after).add(w).add(b));
    }
}

/// No ticket is lost and none comes twice: what an event leads to, and what
/// waited before it, is what is delivered at it, and what waits after it.
pub proof fn law_no_ticket_is_lost(before: Desk, e: Event, after: Desk, sent: Seq<Delivery>)
    requires
        happens(before, e, after, sent),
    ensures
        handed_out(sent).add(all_held(after)) == all_held(before).add(led_to(before, e)),
{
    broadcast use vstd::multiset::group_multiset_axioms;

    let out = sent.map_values(|d: Delivery| d.ticket@);
    out.to_multiset_ensures();
    if sent.len() == 0 {
        assert(out =~= Seq::<Ticket>::empty());
        assert(handed_out(sent) =~= Multiset::<Ticket>::empty());
    }
    match e {
        Event::Dispatcher { id, roads } => {
            if before.unidentified.contains(id) {
                lemma_backlog_no_longer_waits(before, id, roads@);
                let b = before.backlog(id, roads@);
                assert(out =~= b.map_values(|t: Infraction| t@));
                assert(after.tickets == before.cover_all(id, roads@).tickets);
            }
        },
        Event::Observation { plate, road, limit, pos } => {
            if let Some(t) = before.ticket(plate@, road, limit, pos) {
                if before.taker(road) is Some {
                    assert(out =~= Seq::<Ticket>::empty().push(t));
                    Seq::<Ticket>::empty().to_multiset_ensures();
                    assert(handed_out(sent) =~= Multiset::singleton(t));
                } else {
                    let was = before.waiting(road);
                    let now = after.waiting(road);
                    assert forall|x: u16| x != road implies listed(before.tickets, x)
                        == #[trigger] listed(after.tickets, x) by {}
                    lemma_held_changes(before.tickets, after.tickets, road, 65536);
                    assert(now =~= was.push(now.last()));
                    let v = was.map_values(|t: Infraction| t@);
                    assert(now.map_values(|t: Infraction| t@) =~= v.push(t));
                    v.to_multiset_ensures();
                    let m = v.to_multiset();
                    assert(all_held(after).add(m) == all_held(before).add(m.insert(t)));
                    assert forall|x: Ticket| #[trigger]
                        all_held(after).count(x) == all_held(before).add(
                            Multiset::singleton(t),
                        ).count(x) by {
                        assert(all_held(after).add(m).count(x) == all_held(before).add(
                            m.insert(t),
                        ).count(x));
                    }
                    assert(all_held(after) =~= all_held(before).add(Multiset::singleton(t)));
                }
            }
        },
        Event::Camera { .. } => {},
        Event::Gone { .. } => {},
    }
    assert(handed_out(sent).add(all_held(after)) =~= all_held(before).add(led_to(before, e)));
}

/// A step of the server: an event with what is delivered at it.
pub struct Turn {
    pub before: Desk,
    pub event: Event,
    pub after: Desk,
    pub sent: Seq<Delivery>,
}

/// All the tickets that a run leads to.
pub open spec fn all_led_to(run: Seq<Turn>) -> Multiset<Ticket>
    decreases run.len(),
{
    if run.len() == 0 {
        Multiset::empty()
    } else {
        all_led_to(run.drop_last()).add(led_to(run.last().before, run.last().event))
    }
}

/// All the tickets that are delivered in a run.
pub open spec fn all_handed_out(run: Seq<Turn>) -> Multiset<Ticket>
    decreases run.len(),
{
    if run.len() == 0 {
        Multiset::empty()
    } else {
        all_handed_out(run.drop_last()).add(handed_out(run.last().sent))
    }
}

/// In a whole run, from where no ticket waits, the tickets that observations
/// have led to are those that have been delivered and those that wait.
pub proof fn law_no_ticket_is_lost_in_a_run(run: Seq<Turn>)
    requires
        run.len() > 0,
        run[0].before.tickets == Map::<u16, Seq<Infraction>>::empty(),
        forall|i: int|
            0 <= i < run.len() ==> happens(
                (#[trigger] run[i]).before,
                run[i].event,
                run[i].after,
                run[i].sent,
            ),
        forall|i: int|
            0 < i < run.len() ==> (#[trigger] run[i]).before.tickets == run[i - 1].after.tickets,
    ensures
        all_led_to(run) == all_handed_out(run).add(all_held(run.last().after)),
    decreases run.len(),
{
    broadcast use vstd::multiset::group_multiset_axioms;

    let last = run.last();
    let less = run.drop_last();
    assert(last == run[run.len() - 1]);
    law_no_ticket_is_lost(last.before, last.event, last.after, last.sent);
    if less.len() == 0 {
        lemma_nothing_held(65536);
        assert(all_held(last.before) =~= Multiset::<Ticket>::empty());
    } else {
        assert forall|i: int| 0 <= i < less.len() implies happens(
            (#[trigger] less[i]).before,
            less[i].event,
            less[i].after,
            less[i].sent,
        ) by {
            assert(less[i] == run[i]);
        }
        assert forall|i: int| 0 < i < less.len() implies (#[trigger] less[i]).before.tickets
            == less[i - 1].after.tickets by {
            assert(less[i] == run[i] && less[i - 1] == run[i - 1]);
        }
        law_no_ticket_is_lost_in_a_run(less);
        assert(less.last() == run[run.len() - 2]);
        assert(last.before.tickets == less.last().after.tickets);
    }
    let led = all_led_to(less);
    let given = all_handed_out(less);
    assert(led == given.add(all_held(last.before))) by {
        if less.len() == 0 {
            assert(led =~= given.add(all_held(last.before)));
        }
    }
    assert forall|x: Ticket| #[trigger]
        all_led_to(run).count(x) == all_handed_out(run).add(all_held(last.after)).count(x) by {
        assert(led.count(x) == given.add(all_held(last.before)).count(x));
        assert(handed_out(last.sent).add(all_held(last.after)).count(x) == all_held(
            last.before,
        ).add(led_to(last.before, last.event)).count(x));
    }
    assert(all_led_to(run) =~= all_handed_out(run).add(all_held(last.after)));
}

/// With no lists nothing waits.
proof fn lemma_nothing_held(below: nat)
    ensures
        held(Map::empty(), below) == Multiset::<Ticket>::empty(),
    decreases below,
{
    if below > 0 {
        lemma_nothing_held((below - 1) as nat);
    }
}

/// How often something stands in a list is how often it is in the list's
/// contents.
proof fn lemma_times_is_count<T>(s: Seq<T>, x: T)
    ensures
        times(s, x) == s.to_multiset().count(x),
    decreases s.len(),
{
    broadcast use vstd::multiset::group_multiset_axioms;

    s.to_multiset_ensures();
    if s.len() > 0 {
        lemma_times_is_count(s.drop_last(), x);
        s.drop_last().to_multiset_ensures();
        assert(s =~= s.drop_last().push(s.last()));
    }
}

/// What each event does to the books, beside the tickets.
pub proof fn law_what_events_do(before: Desk, e: Event, after: Desk, sent: Seq<Delivery>)
    requires
        happens(before, e, after, sent),
    ensures
        match e {
            Event::Camera { id } => after == (Desk {
                unidentified: before.unidentified.remove(id),
                ..before
            }) && sent.len() == 0,
            Event::Dispatcher { id, roads } => if before.unidentified.contains(id) {
                &&& after.unidentified == before.unidentified.remove(id)
                &&& after.dispatchers == before.dispatchers.insert(id, roads@)
                &&& after.cars == before.cars
                &&& forall|i: int| 0 <= i < sent.len() ==> (#[trigger] sent[i]).id == id
            } else {
                after == before && sent.len() == 0
            },
            Event::Gone { id } => {
                &&& sent.len() == 0
                &&& after.tickets == before.tickets
                &&& after.cars == before.cars
                &&& after.dispatchers == before.dispatchers.remove(id)
                &&& after.unidentified == if before.dispatchers.contains_key(id) {
                    before.unidentified
                } else {
                    before.unidentified.remove(id)
                }
                &&& !before.dispatchers.contains_key(id) ==> after.coverage == before.coverage
            },
            Event::Observation { plate, road, limit, pos } => {
                &&& after.unidentified == before.unidentified
                &&& after.dispatchers == before.dispatchers
                &&& after.coverage == before.coverage
                &&& before.cars.contains_key(plate@) ==> after.cars == before.cars.insert(
                    plate@,
                    before.cars[plate@].after(road, limit, pos),
                )
                &&& before.cars.contains_key(plate@) && before.cars[plate@].ticket(road, limit, pos)
                    is None ==> sent.len() == 0 && after.tickets == before.tickets
                &&& !before.cars.contains_key(plate@) ==> sent.len() == 0 && after.tickets
                    == before.tickets && after.cars == before.cars.insert(
                    plate@,
                    Record {
                        plate: plate@,
                        seen: Map::<u16, Seq<Obs>>::empty().insert(road, seq![pos]),
                        ticketed: Set::empty(),
                    },
                )
            },
        },
{
    match e {
        Event::Dispatcher { id, roads } => {
            lemma_cover_all(before, id, roads@, 0, id);
        },
        Event::Gone { id } => {
            if !before.dispatchers.contains_key(id) {
                assert(before.dispatchers.remove(id) =~= before.dispatchers);
            }
        },
        _ => {},
    }
}

/// Where a ticket goes at an observation: to the first on duty for its road who
/// is a dispatcher, at once; and where there is none, behind those that wait
/// for that road, while the others wait as they did.
pub proof fn law_where_tickets_go(
    before: Desk,
    plate: LPString,
    road: u16,
    limit: u16,
    pos: Obs,
    after: Desk,
    sent: Seq<Delivery>,
    t: Ticket,
    k: int,
)
    requires
        happens(before, Event::Observation { plate, road, limit, pos }, after, sent),
        before.cars.contains_key(plate@),
        before.cars[plate@].ticket(road, limit, pos) == Some(t),
    ensures
        before.coverage.contains_key(road) && 0 <= k < before.coverage[road].len()
            && before.dispatchers.contains_key(before.coverage[road][k]) && (forall|j: int|
            0 <= j < k ==> !before.dispatchers.contains_key(#[trigger] before.coverage[road][j]))
            ==> {
            &&& sent.len() == 1
            &&& sent[0].id == before.coverage[road][k]
            &&& sent[0].ticket@ == t
            &&& after.tickets == before.tickets
        },
        !before.coverage.contains_key(road) || (forall|j: int|
            0 <= j < before.coverage[road].len() ==> !before.dispatchers.contains_key(
                #[trigger] before.coverage[road][j],
            )) ==> {
            &&& sent.len() == 0
            &&& after.tickets.contains_key(road)
            &&& after.tickets[road].len() > 0
            &&& after.tickets[road].last()@ == t
            &&& before.tickets.contains_key(road) ==> after.tickets[road].drop_last()
                == before.tickets[road]
            &&& !before.tickets.contains_key(road) ==> after.tickets[road].len() == 1
            &&& after.tickets == before.tickets.insert(road, after.tickets[road])
        },
{
    let ids = before.on_duty(road);
    if before.coverage.contains_key(road) && 0 <= k < ids.len() && before.dispatchers.contains_key(
        ids[k],
    ) && (forall|j: int|
        0 <= j < k ==> !before.dispatchers.contains_key(#[trigger] before.coverage[road][j])) {
        lemma_first_available(ids, before.dispatchers.dom(), k);
    }
    if !before.coverage.contains_key(road) || (forall|j: int|
        0 <= j < before.coverage[road].len() ==> !before.dispatchers.contains_key(
            #[trigger] before.coverage[road][j],
        )) {
        lemma_available(ids, before.dispatchers.dom());
        if let Some(id) = before.taker(road) {
            let i = ids.index_of(id);
            assert(before.coverage[road][i] == id);
        }
    }
}

/// The first who is available.
proof fn lemma_first_available(ids: Seq<usize>, dispatchers: Set<usize>, k: int)
    requires
        0 <= k < ids.len(),
        dispatchers.contains(ids[k]),
        forall|j: int| 0 <= j < k ==> !dispatchers.contains(#[trigger] ids[j]),
    ensures
        available(ids, dispatchers) == Some(ids[k]),
    decreases ids.len(),
{
    if k > 0 {
        let rest = ids.skip(1);
        assert(!dispatchers.contains(ids[0]));
        assert forall|j: int| 0 <= j < k - 1 implies !dispatchers.contains(#[trigger] rest[j]) by {
            assert(rest[j] == ids[j + 1]);
        }
        lemma_first_available(rest, dispatchers, k - 1);
    }
}

/// Who is on duty for a road: a dispatcher who comes is added once for each
/// time that it has named the road, one who goes is on duty nowhere, and the
/// others stay as often as they were.
pub proof fn law_who_is_on_duty(d: Desk, id: usize, roads: Seq<u16>, road: u16, other: usize)
    requires
        d.in_order(),
    ensures
        d.unidentified.contains(id) ==> d.enlisted(id, roads).on_duty(road).to_multiset().count(id)
            == roads.to_multiset().count(road),
        other != id ==> d.enlisted(id, roads).on_duty(road).to_multiset().count(other) == d.on_duty(
            road,
        ).to_multiset().count(other),
        d.dispatchers.contains_key(id) ==> !d.left(id).on_duty(road).contains(id),
        other != id ==> d.left(id).on_duty(road).to_multiset().count(other) == d.on_duty(
            road,
        ).to_multiset().count(other),
{
    let on = d.enlisted(id, roads).on_duty(road);
    let off = d.left(id).on_duty(road);
    lemma_times_is_count(on, id);
    lemma_times_is_count(on, other);
    lemma_times_is_count(off, other);
    lemma_times_is_count(d.on_duty(road), other);
    lemma_times_is_count(d.on_duty(road), id);
    lemma_times_is_count(roads, road);
    lemma_times_contains(off, id);
    lemma_cover_all(d, id, roads, road, id);
    lemma_cover_all(d, id, roads, road, other);
    assert(times(d.on_duty(road), id) >= 0);
    if d.unidentified.contains(id) {
        assert(!d.dispatchers.contains_key(id));
        assert(on == d.cover_all(id, roads).on_duty(road));
    }
    if d.dispatchers.contains_key(id) {
        lemma_all_relieved(d.coverage, id, d.dispatchers[id], road, id);
        lemma_all_relieved(d.coverage, id, d.dispatchers[id], road, other);
    }
}

/// The tickets that wait for its roads are handed to a dispatcher in the order
/// of the roads, and for each road in the order in which they came.
pub proof fn law_backlog_comes_in_order(d: Desk, id: usize, roads: Seq<u16>)
    requires
        roads.no_duplicates(),
    ensures
        d.backlog(id, roads) == roads.map_values(
            |road: u16| if d.tickets.contains_key(road) {
                d.tickets[road]
            } else {
                Seq::empty()
            },
        ).flatten(),
    decreases roads.len(),
{
    let list = |road: u16| if d.tickets.contains_key(road) {
        d.tickets[road]
    } else {
        Seq::empty()
    };
    let lists = roads.map_values(list);
    lists.lemma_flatten_and_flatten_alt_are_equivalent();
    if roads.len() > 0 {
        let less = roads.drop_last();
        let road = roads.last();
        law_backlog_comes_in_order(d, id, less);
        less.map_values(list).lemma_flatten_and_flatten_alt_are_equivalent();
        assert(lists.drop_last() =~= less.map_values(list));
        lemma_cover_all(d, id, less, road, id);
        lemma_times_contains(less, road);
        if less.contains(road) {
            let i = less.index_of(road);
            assert(roads[i] == roads[roads.len() - 1]);
        }
        assert(d.cover_all(id, less).waiting(road) == list(road));
    }
}

/// A dispatcher who comes stands behind those who were on duty for its roads
/// before, and its roads have nothing waiting any more; the others are as they
/// were.
pub proof fn law_newcomers_stand_behind(d: Desk, id: usize, roads: Seq<u16>, road: u16)
    requires
        d.unidentified.contains(id),
        roads.no_duplicates(),
    ensures
        roads.contains(road) ==> d.enlisted(id, roads).on_duty(road) == d.on_duty(road).push(id)
            && d.enlisted(id, roads).waiting(road).len() == 0,
        !roads.contains(road) ==> d.enlisted(id, roads).on_duty(road) == d.on_duty(road)
            && d.enlisted(id, roads).waiting(road) == d.waiting(road),
{
    lemma_newcomer(d, id, roads, road);
}

/// A dispatcher who takes on roads stands behind the others.
proof fn lemma_newcomer(d: Desk, id: usize, roads: Seq<u16>, road: u16)
    requires
        roads.no_duplicates(),
    ensures
        roads.contains(road) ==> d.cover_all(id, roads).on_duty(road) == d.on_duty(road).push(id)
            && d.cover_all(id, roads).waiting(road).len() == 0,
        !roads.contains(road) ==> d.cover_all(id, roads).on_duty(road) == d.on_duty(road)
            && d.cover_all(id, roads).waiting(road) == d.waiting(road),
    decreases roads.len(),
{
    if roads.len() > 0 {
        let less = roads.drop_last();
        lemma_newcomer(d, id, less, road);
        if less.contains(road) {
            let i = less.index_of(road);
            assert(roads[i] == road);
            assert(roads[roads.len() - 1] != road);
        }
        if roads.contains(road) && !less.contains(road) {
            let i = roads.index_of(road);
            if i < less.len() {
                assert(less[i] == road);
            }
            assert(roads.last() == road);
        }
        if roads.last() == road {
            assert(roads.contains(roads[roads.len() - 1]));
        }
    }
}

/// Where a dispatcher stands once on the list of a road and goes, the last on
/// the list takes its place.
pub proof fn law_the_last_takes_the_place(
    coverage: Map<u16, Seq<usize>>,
    id: usize,
    road: u16,
    i: int,
)
    requires
        coverage.contains_key(road),
        0 <= i < coverage[road].len(),
        coverage[road][i] == id,
        forall|j: int| 0 <= j < i ==> coverage[road][j] != id,
    ensures
        coverage[road].len() == 1 ==> relieved(coverage, id, road) == coverage.remove(road),
        coverage[road].len() > 1 ==> relieved(coverage, id, road) == coverage.insert(
            road,
            coverage[road].update(i, coverage[road].last()).drop_last(),
        ),
        all_relieved(coverage, id, seq![road]) == relieved(coverage, id, road),
{
    lemma_first_is(coverage[road], id, 0, i);
    assert(seq![road].drop_last() =~= Seq::<u16>::empty());
    assert(all_relieved(coverage, id, Seq::<u16>::empty()) == coverage);
}

/// Where an element first stands.
proof fn lemma_first_is<T>(s: Seq<T>, x: T, from: int, at: int)
    requires
        0 <= from <= at < s.len(),
        s[at] == x,
        forall|j: int| from <= j < at ==> s[j] != x,
    ensures
        first(s, x, from) == at,
    decreases at - from,
{
    if from < at {
        lemma_first_is(s, x, from + 1, at);
    }
}

} // verus!
