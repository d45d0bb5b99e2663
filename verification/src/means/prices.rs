//! The prices of one client, and their averages.

use std::collections::BTreeMap;

use vstd::prelude::*;
use vstd::std_specs::btree::{axiom_increasing_seq_meaning, increasing_seq};
use vstd::std_specs::cmp::OrdSpec;

use crate::bytes::be32;
use crate::means::msg::{complement, law_four_bytes, to_bytes, Msg};

verus! {

/// How many timestamps in a range, inclusive, have a price.
pub open spec fn count(prices: Map<i32, i32>, low: int, high: int) -> nat
    decreases high - low + 1,
{
    if high < low {
        0
    } else {
        count(prices, low, high - 1) + if prices.contains_key(high as i32) {
            1nat
        } else {
            0nat
        }
    }
}

/// The sum of the prices in a range of timestamps, inclusive.
pub open spec fn sum(prices: Map<i32, i32>, low: int, high: int) -> int
    decreases high - low + 1,
{
    if high < low {
        0
    } else {
        sum(prices, low, high - 1) + if prices.contains_key(high as i32) {
            prices[high as i32] as int
        } else {
            0int
        }
    }
}

/// The quotient, rounded toward zero.
pub open spec fn quotient(a: int, b: int) -> int {
    if a >= 0 {
        a / b
    } else {
        -((-a) / b)
    }
}

/// The average of the prices in a range of timestamps, inclusive, rounded
/// toward zero; zero where there are none.
pub open spec fn average(prices: Map<i32, i32>, low: int, high: int) -> int {
    if count(prices, low, high) == 0 {
        0
    } else {
        quotient(sum(prices, low, high), count(prices, low, high) as int)
    }
}

/// What increases does so by the order of numbers.
proof fn lemma_increasing(s: Seq<i32>)
    requires
        increasing_seq(s),
    ensures
        forall|i: int, j: int| 0 <= i < j < s.len() ==> s[i] < s[j],
{
    broadcast use axiom_increasing_seq_meaning;

    assert forall|i: int, j: int| 0 <= i < j < s.len() implies s[i] < s[j] by {
        assert(s[i].cmp_spec(&s[j]) is Less);
    }
}

/// Where no timestamp has a price, nothing is added.
proof fn lemma_gap(prices: Map<i32, i32>, low: int, a: int, b: int)
    requires
        a <= b,
        i32::MIN <= low,
        b <= i32::MAX,
        forall|k: i32| a < k <= b ==> !(#[trigger] prices.contains_key(k)),
    ensures
        sum(prices, low, b) == sum(prices, low, a),
        count(prices, low, b) == count(prices, low, a),
    decreases b - a,
{
    if a < b {
        lemma_gap(prices, low, a, b - 1);
    }
}

/// The sum of prices that all lie between two numbers does so in proportion.
proof fn lemma_bounds(prices: Map<i32, i32>, low: int, high: int, least: int, most: int)
    requires
        i32::MIN <= low,
        high <= i32::MAX,
        forall|k: i32|
            low <= k <= high && #[trigger] prices.contains_key(k) ==> least <= prices[k] <= most,
    ensures
        least * count(prices, low, high) <= sum(prices, low, high) <= most * count(
            prices,
            low,
            high,
        ),
        high < low ==> count(prices, low, high) == 0,
        high >= low ==> count(prices, low, high) <= high - low + 1,
    decreases high - low + 1,
{
    if low <= high {
        lemma_bounds(prices, low, high - 1, least, most);
        let c = count(prices, low, high - 1) as int;
        let d = count(prices, low, high) as int;
        if prices.contains_key(high as i32) {
            assert(least * d == least * c + least && most * d == most * c + most)
                by (nonlinear_arith)
                requires
                    d == c + 1,
            ;
        }
    } else {
        assert(least * 0 == 0 && most * 0 == 0) by (nonlinear_arith);
    }
}

/// The quotient of what lies between two multiples lies between the factors.
proof fn lemma_quotient(a: int, n: int, least: int, most: int)
    requires
        n > 0,
        least * n <= a <= most * n,
    ensures
        least <= quotient(a, n) <= most,
{
    if a >= 0 {
        assert(least <= a / n <= most) by (nonlinear_arith)
            requires
                n > 0,
                least * n <= a <= most * n,
                a >= 0,
        ;
    } else {
        let m = -a;
        assert((-most) * n == -(most * n) && (-least) * n == -(least * n)) by (nonlinear_arith);
        assert(-most <= m / n <= -least) by (nonlinear_arith)
            requires
                n > 0,
                (-most) * n <= m <= (-least) * n,
                m >= 0,
        ;
    }
}

/// Average all the values in the given range of keys, inclusive.
///
/// Return 0 on empty (including necessarily empty) ranges.
pub fn range_average(map: &BTreeMap<i32, i32>, low: i32, high: i32) -> (r: i32)
    ensures
        r == average(map@, low as int, high as int),
{
    if high < low {
        return 0;
    }
    // This will hold the sum of the key values in the given range. We're
    // using an i64 so we don't risk overflowing if we have a lot of
    // large i32s.
    let mut tot: i64 = 0;
    let mut n: i64 = 0;
    let ghost m = map@;
    // How far we have come, and how much of that is in the range.
    let ghost mut upto: int = i32::MIN - 1;
    let ghost mut seen: int = low - 1;
    for kv in it: map.iter()
        invariant
            m == map@,
            low <= high,
            increasing_seq(it.seq().map_values(|kv: (&i32, &i32)| *kv.0)),
            it.index() == 0 ==> upto == i32::MIN - 1,
            it.index() > 0 ==> upto == *it.seq()[it.index() - 1].0,
            upto <= i32::MAX,
            seen == if upto < low {
                low - 1
            } else if upto > high {
                high as int
            } else {
                upto
            },
            tot == sum(m, low as int, seen),
            n == count(m, low as int, seen),
            forall|k: i32| upto < k && #[trigger] m.contains_key(k) ==> exists|i: int|
                it.index() <= i < it.seq().len() && *(#[trigger] it.seq()[i]).0 == k,
    {
        let t: i32 = *kv.0;
        let p: i32 = *kv.1;
        proof {
            let keys = it.seq().map_values(|kv: (&i32, &i32)| *kv.0);
            lemma_increasing(keys);
            assert(keys[it.index()] == t);
            assert(it.index() > 0 ==> keys[it.index() - 1] == upto);
            assert(m.contains_key(t) && m[t] == p);
            assert forall|k: i32| upto < k < t implies !(#[trigger] m.contains_key(k)) by {
                if m.contains_key(k) {
                    let i = choose|i: int|
                        it.index() <= i < it.seq().len() && *(#[trigger] it.seq()[i]).0 == k;
                    assert(keys[i] == k);
                }
            }
            assert forall|k: i32| t < k && #[trigger] m.contains_key(k) implies exists|i: int|
                it.index() + 1 <= i < it.seq().len() && *(#[trigger] it.seq()[i]).0 == k by {
                let i = choose|i: int|
                    it.index() <= i < it.seq().len() && *(#[trigger] it.seq()[i]).0 == k;
                assert(keys[i] == k);
                assert(i != it.index());
            }
            let now = if t < low {
                low - 1
            } else if t > high {
                high as int
            } else {
                t as int
            };
            if low <= t && t <= high {
                lemma_gap(m, low as int, seen, t - 1);
            } else {
                lemma_gap(m, low as int, seen, now);
            }
            lemma_bounds(m, low as int, now, i32::MIN as int, i32::MAX as int);
            seen = now;
            upto = t as int;
        }
        if low <= t && t <= high {
            tot = tot + p as i64;
            n = n + 1;
        }
    }
    proof {
        lemma_gap(m, low as int, seen, high as int);
        lemma_bounds(m, low as int, high as int, i32::MIN as int, i32::MAX as int);
        if n > 0 {
            lemma_quotient(tot as int, n as int, i32::MIN as int, i32::MAX as int);
        }
    }
    if n == 0 {
        0
    } else if tot >= 0 {
        (tot as u64 / n as u64) as i32
    } else {
        let q: u64 = ((-(tot + 1)) as u64 + 1) / n as u64;
        (-(q as i64)) as i32
    }
}

/// What a client waits for: what reading a message has given.
pub type Input = Result<Option<Msg>, String>;

/// What is done for a client: the bytes to be sent, if any, and whether to
/// stop listening.
pub struct Action {
    pub write: Option<Vec<u8>>,
    pub done: bool,
}

/// The prices that a client has told.
pub struct Prices {
    prices: BTreeMap<i32, i32>,
}

impl View for Prices {
    type V = Map<i32, i32>;

    closed spec fn view(&self) -> Map<i32, i32> {
        self.prices@
    }
}

impl Prices {
    /// No prices.
    pub fn new() -> (r: Prices)
        ensures
            r@ == Map::<i32, i32>::empty(),
    {
        Prices { prices: BTreeMap::new() }
    }

    /// Takes what was read from the client. A price is kept, in place of one
    /// for the same time; a query is answered with the average.
    pub fn handle(&mut self, input: Input) -> (r: Action)
        ensures
            match input {
                Ok(Some(Msg::Insert { timestamp, price })) => {
                    &&& final(self)@ == old(self)@.insert(timestamp, price)
                    &&& r.write is None
                    &&& !r.done
                },
                Ok(Some(Msg::Query { begin, end })) => {
                    &&& final(self)@ == old(self)@
                    &&& r.write is Some
                    &&& r.write->Some_0@ == be32(
                        complement(average(old(self)@, begin as int, end as int) as i32),
                    )
                    &&& r.write->Some_0@.len() == 4
                    &&& ({
                        let b = r.write->Some_0@;
                        let u = b[0] * 16777216 + b[1] * 65536 + b[2] * 256 + b[3];
                        average(old(self)@, begin as int, end as int) == if b[0] < 128 {
                            u
                        } else {
                            u - 4294967296
                        }
                    })
                    &&& !r.done
                },
                _ => final(self)@ == old(self)@ && r.write is None && r.done,
            },
    {
        match input {
            Ok(Some(Msg::Insert { timestamp, price })) => {
                self.prices.insert(timestamp, price);
                Action { write: None, done: false }
            },
            Ok(Some(Msg::Query { begin, end })) => {
                let avg: i32 = range_average(&self.prices, begin, end);
                proof {
                    law_four_bytes(avg);
                }
                Action { write: Some(to_bytes(avg)), done: false }
            },
            _ => Action { write: None, done: true },
        }
    }
}

/// The average lies between the least and the greatest price in the range.
pub proof fn law_averages_lie_between(
    prices: Map<i32, i32>,
    low: i32,
    high: i32,
    least: int,
    most: int,
)
    requires
        count(prices, low as int, high as int) > 0,
        forall|k: i32|
            low <= k <= high && #[trigger] prices.contains_key(k) ==> least <= prices[k] <= most,
    ensures
        least <= average(prices, low as int, high as int) <= most,
{
    lemma_bounds(prices, low as int, high as int, least, most);
    lemma_quotient(
        sum(prices, low as int, high as int),
        count(prices, low as int, high as int) as int,
        least,
        most,
    );
}

/// A price outside the range makes no difference to the average.
pub proof fn law_prices_elsewhere_make_no_difference(
    prices: Map<i32, i32>,
    low: i32,
    high: i32,
    t: i32,
    p: i32,
)
    requires
        t < low || high < t,
    ensures
        average(prices.insert(t, p), low as int, high as int) == average(
            prices,
            low as int,
            high as int,
        ),
{
    lemma_elsewhere(prices, low as int, high as int, t, p);
}

/// A price outside the range adds nothing.
proof fn lemma_elsewhere(prices: Map<i32, i32>, low: int, high: int, t: i32, p: i32)
    requires
        t < low || high < t,
        i32::MIN <= low,
        high <= i32::MAX,
    ensures
        sum(prices.insert(t, p), low, high) == sum(prices, low, high),
        count(prices.insert(t, p), low, high) == count(prices, low, high),
    decreases high - low + 1,
{
    if low <= high {
        lemma_elsewhere(prices, low, high - 1, t, p);
    }
}

/// What a price adds to the sum and the count of its range: itself and one,
/// where its time had none; and the difference to the one that it replaces,
/// where it had. With no prices both are zero.
pub proof fn law_each_price_counts_once(prices: Map<i32, i32>, low: i32, high: i32, t: i32, p: i32)
    ensures
        sum(Map::empty(), low as int, high as int) == 0,
        count(Map::empty(), low as int, high as int) == 0,
        low <= t <= high && !prices.contains_key(t) ==> sum(
            prices.insert(t, p),
            low as int,
            high as int,
        ) == sum(prices, low as int, high as int) + p && count(
            prices.insert(t, p),
            low as int,
            high as int,
        ) == count(prices, low as int, high as int) + 1,
        low <= t <= high && prices.contains_key(t) ==> sum(
            prices.insert(t, p),
            low as int,
            high as int,
        ) == sum(prices, low as int, high as int) - prices[t] + p && count(
            prices.insert(t, p),
            low as int,
            high as int,
        ) == count(prices, low as int, high as int),
        !(low <= t <= high) ==> sum(prices.insert(t, p), low as int, high as int) == sum(
            prices,
            low as int,
            high as int,
        ) && count(prices.insert(t, p), low as int, high as int) == count(
            prices,
            low as int,
            high as int,
        ),
{
    lemma_empty(low as int, high as int);
    if low <= t <= high {
        lemma_one_more(prices, low as int, high as int, t, p);
    } else {
        lemma_elsewhere(prices, low as int, high as int, t, p);
    }
}

/// With no prices there is nothing to add.
proof fn lemma_empty(low: int, high: int)
    ensures
        sum(Map::empty(), low, high) == 0,
        count(Map::empty(), low, high) == 0,
    decreases high - low + 1,
{
    if low <= high {
        lemma_empty(low, high - 1);
    }
}

/// What a price in the range adds.
proof fn lemma_one_more(prices: Map<i32, i32>, low: int, high: int, t: i32, p: i32)
    requires
        i32::MIN <= low <= t <= high <= i32::MAX,
    ensures
        sum(prices.insert(t, p), low, high) == sum(prices, low, high) + p
            - if prices.contains_key(t) {
            prices[t] as int
        } else {
            0int
        },
        count(prices.insert(t, p), low, high) == count(prices, low, high)
            + if prices.contains_key(t) {
            0int
        } else {
            1int
        },
    decreases high - low + 1,
{
    if t == high {
        lemma_elsewhere(prices, low, high - 1, t, p);
    } else {
        lemma_one_more(prices, low, high - 1, t, p);
    }
}

/// The average is the sum divided by the count, rounded toward zero, and zero
/// where there is nothing to count.
pub proof fn law_averages_are_quotients(prices: Map<i32, i32>, low: i32, high: i32)
    ensures
        ({
            let v = average(prices, low as int, high as int);
            let s = sum(prices, low as int, high as int);
            let n = count(prices, low as int, high as int) as int;
            &&& n == 0 ==> v == 0
            &&& n > 0 && s >= 0 ==> v >= 0 && v * n <= s < (v + 1) * n
            &&& n > 0 && s < 0 ==> v <= 0 && (v - 1) * n < s <= v * n
            &&& i32::MIN <= v <= i32::MAX
            &&& high < low ==> v == 0
        }),
{
    let s = sum(prices, low as int, high as int);
    let n = count(prices, low as int, high as int) as int;
    lemma_bounds(prices, low as int, high as int, i32::MIN as int, i32::MAX as int);
    if n > 0 {
        lemma_quotient(s, n, i32::MIN as int, i32::MAX as int);
        if s >= 0 {
            assert((s / n) >= 0 && (s / n) * n <= s < (s / n + 1) * n) by (nonlinear_arith)
                requires
                    n > 0,
                    s >= 0,
            ;
        } else {
            let m = -s;
            let q = m / n;
            assert(q >= 0 && q * n <= m < (q + 1) * n) by (nonlinear_arith)
                requires
                    n > 0,
                    m >= 0,
                    q == m / n,
            ;
            let v = -q;
            assert((v - 1) * n < s <= v * n) by (nonlinear_arith)
                requires
                    q * n <= -s < (q + 1) * n,
                    v == -q,
            ;
        }
    }
}

} // verus!
