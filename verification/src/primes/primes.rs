//! A primality checker.

use vstd::arithmetic::div_mod::{lemma_fundamental_div_mod, lemma_mod_multiples_basic};
use vstd::prelude::*;

use crate::primes::large::{law_there_is_a_next_prime, LARGE_PRIME};

verus! {

/// Whether `d` divides `n`.
pub open spec fn divides(d: int, n: int) -> bool {
    n % d == 0
}

/// Whether `n` is prime.
pub open spec fn prime(n: int) -> bool {
    n >= 2 && forall|d: int| 2 <= d < n ==> !(#[trigger] divides(d, n))
}

/// The least divisor of `n` from `from` on.
spec fn least_factor(n: int, from: int) -> int
    decreases n - from,
{
    if from >= n || divides(from, n) {
        from
    } else {
        least_factor(n, from + 1)
    }
}

/// What divides a divisor divides.
proof fn lemma_divides_transitive(e: int, d: int, n: int)
    requires
        e > 0,
        d > 0,
        divides(e, d),
        divides(d, n),
    ensures
        divides(e, n),
{
    lemma_fundamental_div_mod(n, d);
    lemma_fundamental_div_mod(d, e);
    let k = n / d;
    let m = d / e;
    assert(n == (k * m) * e) by (nonlinear_arith)
        requires
            n == d * k,
            d == e * m,
    ;
    lemma_mod_multiples_basic(k * m, e);
}

/// The least divisor is one, and the least.
proof fn lemma_least_factor(n: int, from: int)
    requires
        2 <= from <= n,
        forall|d: int| 2 <= d < from ==> !(#[trigger] divides(d, n)),
    ensures
        ({
            let q = least_factor(n, from);
            &&& from <= q <= n
            &&& divides(q, n)
            &&& forall|d: int| 2 <= d < q ==> !(#[trigger] divides(d, n))
        }),
    decreases n - from,
{
    if from >= n {
        assert(n % n == 0) by (nonlinear_arith)
            requires
                n >= 2,
        ;
    } else if !divides(from, n) {
        lemma_least_factor(n, from + 1);
    }
}

/// Every number from two on has a prime factor, and one that is not prime has
/// one whose square is no more than it.
pub proof fn lemma_prime_factor(n: int) -> (q: int)
    requires
        n >= 2,
    ensures
        prime(q),
        divides(q, n),
        2 <= q <= n,
        !prime(n) ==> q * q <= n,
{
    let q = least_factor(n, 2);
    lemma_least_factor(n, 2);
    assert forall|d: int| 2 <= d < q implies !(#[trigger] divides(d, q)) by {
        if divides(d, q) {
            lemma_divides_transitive(d, q, n);
        }
    }
    if !prime(n) {
        let d = choose|d: int| 2 <= d < n && #[trigger] divides(d, n);
        assert(q <= d);
        let k = n / q;
        lemma_fundamental_div_mod(n, q);
        assert(n == q * k);
        assert(k >= 2) by (nonlinear_arith)
            requires
                n == q * k,
                q < n,
                q >= 2,
                n >= 2,
        ;
        lemma_mod_multiples_basic(q, k);
        assert(n == q * k);
        assert(divides(k, n));
        if k < q {
            assert(!divides(k, n));
        }
        assert(q * q <= n) by (nonlinear_arith)
            requires
                n == q * k,
                k >= q,
                q >= 2,
        ;
    }
    q
}

/// Return the least upper bound for the square root of `n`.
pub fn sqrt_sup(n: u64) -> (r: u64)
    ensures
        r * r >= n,
        r > 0 ==> (r - 1) * (r - 1) < n,
{
    if n == 0 {
        return 0;
    }
    let mut lo: u64 = 0;
    let mut hi: u64 = 4294967296;
    while lo + 1 < hi
        invariant
            lo < hi <= 4294967296,
            lo * lo < n,
            hi * hi >= n,
        decreases hi - lo,
    {
        let mid: u64 = lo + (hi - lo) / 2;
        assert(mid * mid <= 18446744073709551616) by (nonlinear_arith)
            requires
                mid <= 4294967296,
        ;
        if (mid as u128) * (mid as u128) < n as u128 {
            lo = mid;
        } else {
            hi = mid;
        }
    }
    hi
}

/// The primes that have been found, from two on.
#[derive(Debug)]
pub struct Primes {
    known: Vec<u64>,
}

impl View for Primes {
    type V = Seq<u64>;

    closed spec fn view(&self) -> Seq<u64> {
        self.known@
    }
}

/// Whether `known` are all the primes up to the last of them, in order.
pub open spec fn all_primes(known: Seq<u64>) -> bool {
    &&& known.len() > 0
    &&& forall|i: int| 0 <= i < known.len() ==> prime(#[trigger] known[i] as int)
    &&& forall|i: int, j: int| 0 <= i < j < known.len() ==> known[i] < known[j]
    &&& forall|p: u64| prime(p as int) && p <= known.last() ==> #[trigger] known.contains(p)
}

/// Whether `q` is the next prime after `p`.
pub open spec fn next_prime(p: int, q: int) -> bool {
    p < q && prime(q) && forall|r: int| p < r < q ==> !(#[trigger] prime(r))
}

impl Default for Primes {
    fn default() -> (r: Self)
        ensures
            r.wf(),
            r@ == seq![2u64],
    {
        let mut known: Vec<u64> = Vec::new();
        known.push(2);
        let r = Primes { known };
        assert(r@ =~= seq![2u64]);
        assert forall|p: u64| prime(p as int) && p <= r@.last() implies #[trigger] r@.contains(
            p,
        ) by {
            assert(r@[0] == p);
        }
        r
    }
}

impl Primes {
    /// Whether these are all the primes up to the last of them, in order.
    pub open spec fn wf(&self) -> bool {
        all_primes(self@)
    }

    /// The primes that have been found.
    pub fn known(&self) -> (r: &[u64])
        ensures
            r@ == self@,
    {
        self.known.as_slice()
    }

    /// Whether none of the primes up to `p`, whose square is no less than
    /// `n`, divides `n`, makes `n` prime.
    proof fn lemma_no_small_factor(n: int, s: int, p: int)
        requires
            n >= 2,
            0 <= s <= p,
            s * s >= n,
            forall|q: int| 2 <= q <= p && prime(q) ==> !(#[trigger] divides(q, n)),
        ensures
            prime(n),
    {
        if !prime(n) {
            let q = lemma_prime_factor(n);
            assert(q <= s) by (nonlinear_arith)
                requires
                    q * q <= n,
                    n <= s * s,
                    q >= 2,
                    s >= 0,
            ;
        }
    }

    /// Whether `n`, which is above all the known primes with no prime in
    /// between, is prime.
    fn is_next(&self, n: u64) -> (r: bool)
        requires
            self.wf(),
            self@.last() < n,
            forall|q: int| self@.last() < q < n ==> !(#[trigger] prime(q)),
        ensures
            r == prime(n as int),
    {
        let sqrt: u64 = sqrt_sup(n);
        let mut i: usize = 0;
        assert(prime(self.known@[0] as int));
        while i < self.known.len()
            invariant
                self.wf(),
                n >= 2,
                self@.last() < n,
                sqrt * sqrt >= n,
                i <= self.known@.len(),
                forall|j: int| 0 <= j < i ==> !divides(#[trigger] self.known@[j] as int, n as int),
            decreases self.known@.len() - i,
        {
            let p: u64 = self.known[i];
            assert(prime(p as int));
            if n % p == 0 {
                assert(divides(p as int, n as int));
                assert(p <= self.known@.last());
                return false;
            } else if p >= sqrt {
                proof {
                    assert(!divides(p as int, n as int));
                    assert forall|q: int| 2 <= q <= p && prime(q) implies !(#[trigger] divides(
                        q,
                        n as int,
                    )) by {
                        assert(self.known@.contains(q as u64));
                        let j = self.known@.index_of(q as u64);
                        assert(self.known@[j] == q);
                        assert(j <= i);
                    }
                    Self::lemma_no_small_factor(n as int, sqrt as int, p as int);
                }
                return true;
            }
            i = i + 1;
        }
        proof {
            let q = lemma_prime_factor(n as int);
            if q <= self@.last() {
                assert(self.known@.contains(q as u64));
                let j = self.known@.index_of(q as u64);
                assert(self.known@[j] == q);
            }
            assert(q == n);
        }
        true
    }

    /// Finds one more prime. There has to be one that fits in a word, as there
    /// is below the large prime.
    pub fn push_next(&mut self)
        requires
            old(self).wf(),
            old(self)@.last() < LARGE_PRIME || exists|q: int|
                old(self)@.last() < q <= u64::MAX && #[trigger] prime(q),
        ensures
            final(self).wf(),
            final(self)@.len() == old(self)@.len() + 1,
            final(self)@.drop_last() == old(self)@,
            next_prime(old(self)@.last() as int, final(self)@.last() as int),
            old(self)@.last() < final(self)@.last(),
            prime(final(self)@.last() as int),
            forall|r: int|
                old(self)@.last() < r < final(self)@.last() ==> !(#[trigger] prime(r)),
    {
        let ghost before = self@;
        proof {
            if before.last() < LARGE_PRIME {
                law_there_is_a_next_prime(before.last() as int);
            }
        }
        let ghost bound = choose|q: int| before.last() < q <= u64::MAX && #[trigger] prime(q);
        let mut n: u64 = self.known[self.known.len() - 1] + 1;
        while !self.is_next(n)
            invariant
                self.wf(),
                self@ == before,
                before.last() < n <= bound <= u64::MAX,
                prime(bound),
                forall|q: int| before.last() < q < n ==> !(#[trigger] prime(q)),
            decreases bound - n,
        {
            n = n + 1;
        }
        self.known.push(n);
        proof {
            assert(self@.drop_last() =~= before);
            assert forall|p: u64| prime(p as int) && p <= self@.last() implies #[trigger] self@.contains(
                p,
            ) by {
                if p == n {
                    assert(self@[before.len() as int] == p);
                } else {
                    assert(before.contains(p));
                    let j = before.index_of(p);
                    assert(self@[j] == p);
                }
            }
            assert forall|i: int, j: int| 0 <= i < j < self@.len() implies self@[i] < self@[j] by {
                if j == before.len() {
                    assert(self@[i] == before[i]);
                    assert(before[i] <= before.last());
                }
            }
        }
    }

    /// Return `true` if `n` is prime.
    pub fn is_prime(&mut self, n: u64) -> (r: bool)
        requires
            old(self).wf(),
        ensures
            r == prime(n as int),
            final(self).wf(),
            old(self)@.is_prefix_of(final(self)@),
    {
        if n < 2 {
            return false;
        }
        let sqrt: u64 = sqrt_sup(n);
        assert(sqrt <= n) by (nonlinear_arith)
            requires
                n >= 2,
                sqrt > 0 ==> (sqrt - 1) * (sqrt - 1) < n,
        ;
        let ghost before = self@;
        // Check for divisibility against all primes generated so far, and go
        // on generating primes and checking until we're convinced.
        let mut i: usize = 0;
        loop
            invariant
                self.wf(),
                before == old(self)@,
                before.is_prefix_of(self@),
                n >= 2,
                sqrt * sqrt >= n,
                sqrt <= n,
                i <= self.known@.len(),
                forall|j: int|
                    0 <= j < i ==> self.known@[j] < n && !divides(
                        #[trigger] self.known@[j] as int,
                        n as int,
                    ),
            decreases n - (if i == 0 { 0 } else { self.known@[i - 1] as int }), self.known@.len() - i,
        {
            if i == self.known.len() {
                proof {
                    let q = lemma_prime_factor(n as int);
                    if q <= self@.last() {
                        assert(self.known@.contains(q as u64));
                        let j = self.known@.index_of(q as u64);
                        assert(self.known@[j] == q);
                    }
                }
                let ghost had = self@;
                self.push_next();
                assert forall|j: int| 0 <= j < had.len() implies self.known@[j] == had[j] by {
                    assert(self@.drop_last()[j] == had[j]);
                }
            }
            assert(i < self.known.len());
            let p: u64 = self.known[i];
            assert(prime(p as int));
            proof {
                if p > n {
                    assert(n % p == n) by (nonlinear_arith)
                        requires
                            n < p,
                    ;
                }
            }
            if n == p {
                return true;
            } else if n % p == 0 {
                assert(divides(p as int, n as int));
                return false;
            } else if p >= sqrt {
                proof {
                    assert(!divides(p as int, n as int));
                    assert forall|q: int| 2 <= q <= p && prime(q) implies !(#[trigger] divides(
                        q,
                        n as int,
                    )) by {
                        assert(self.known@.contains(q as u64));
                        let j = self.known@.index_of(q as u64);
                        assert(self.known@[j] == q);
                        assert(j <= i);
                    }
                    Self::lemma_no_small_factor(n as int, sqrt as int, p as int);
                }
                return true;
            }
            i = i + 1;
        }
    }
}

/// A number is prime exactly where it is at least two and leaves a remainder by
/// every smaller number from two on.
pub proof fn law_primes_have_no_divisors(n: int)
    ensures
        prime(n) <==> n >= 2 && forall|d: int| 2 <= d < n ==> #[trigger] (n % d) != 0,
{
    if n >= 2 && forall|d: int| 2 <= d < n ==> #[trigger] (n % d) != 0 {
        assert forall|d: int| 2 <= d < n implies !(#[trigger] divides(d, n)) by {
            assert(n % d != 0);
        }
    }
    if prime(n) {
        assert forall|d: int| 2 <= d < n implies #[trigger] (n % d) != 0 by {
            assert(!divides(d, n));
        }
    }
}

/// A product of two numbers from two on is not prime, and every number from two
/// on that is not prime is such a product.
pub proof fn law_other_numbers_are_products(a: int, b: int, n: int)
    ensures
        a >= 2 && b >= 2 ==> !prime(a * b),
        n >= 2 && !prime(n) ==> exists|x: int, y: int|
            x >= 2 && y >= 2 && #[trigger] (x * y) == n,
{
    if a >= 2 && b >= 2 {
        lemma_mod_multiples_basic(b, a);
        assert(a < a * b && a * b == b * a) by (nonlinear_arith)
            requires
                a >= 2,
                b >= 2,
        ;
        assert(divides(a, a * b));
    }
    if n >= 2 && !prime(n) {
        let q = lemma_prime_factor(n);
        lemma_fundamental_div_mod(n, q);
        let k = n / q;
        assert(k >= 2) by (nonlinear_arith)
            requires
                n == q * k,
                q * q <= n,
                q >= 2,
        ;
        assert(q * k == n);
    }
}

} // verus!
