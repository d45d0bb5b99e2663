//! A large prime, which shows that there is always a next one to be found
//! below it.

use vstd::arithmetic::div_mod::{
    lemma_fundamental_div_mod, lemma_mod_multiples_vanish, lemma_mul_mod_noop_general,
    lemma_small_mod,
};
use vstd::arithmetic::power::{
    lemma1_pow, lemma_pow1, lemma_pow_adds, lemma_pow_mod_noop, lemma_pow_multiplies,
    lemma_square_is_pow2, pow,
};
use vstd::arithmetic::power2::{lemma2_to64, lemma_pow2_unfold, pow2};
use vstd::prelude::*;
use vstd::set_lib::{lemma_int_range, lemma_len_subset, lemma_map_size, set_int_range};

use crate::primes::primes::{divides, lemma_prime_factor, prime};

verus! {

/// A prime: the thirty-second power of two, times one less than that, plus one.
pub const LARGE_PRIME: u64 = 18446744069414584321;

/// A power with an exponent twice as large, or one more than that.
proof fn lemma_doubled_exponent(e: nat)
    ensures
        pow(7, 2 * e) == pow(7, e) * pow(7, e),
        pow(7, 2 * e + 1) == pow(7, e) * pow(7, e) * 7,
{
    lemma_pow_adds(7, e, e);
    lemma_pow_adds(7, 2 * e, 1);
    lemma_pow1(7);
    assert(e + e == 2 * e);
}

/// One step toward a large power of seven.
proof fn lemma_even_step(e: nat, c: int, f: nat, d: int)
    requires
        pow(7, e) % (LARGE_PRIME as int) == c,
        f == 2 * e,
        (c * c) % (LARGE_PRIME as int) == d,
    ensures
        pow(7, f) % (LARGE_PRIME as int) == d,
{
    lemma_doubled_exponent(e);
    lemma_mul_mod_noop_general(pow(7, e), pow(7, e), LARGE_PRIME as int);
}

/// One step toward a large power of seven.
proof fn lemma_odd_step(e: nat, c: int, f: nat, d: int)
    requires
        pow(7, e) % (LARGE_PRIME as int) == c,
        f == 2 * e + 1,
        (c * c * 7) % (LARGE_PRIME as int) == d,
    ensures
        pow(7, f) % (LARGE_PRIME as int) == d,
{
    let p = LARGE_PRIME as int;
    let x = pow(7, e);
    lemma_doubled_exponent(e);
    lemma_mul_mod_noop_general(x, x, p);
    lemma_mul_mod_noop_general(x * x, 7, p);
    lemma_mul_mod_noop_general(c * c, 7, p);
}

/// Half way round, a power of seven is one less than the prime.
proof fn lemma_half_way()
    ensures
        pow(7, 9223372034707292160) % (LARGE_PRIME as int) == LARGE_PRIME - 1,
{
    lemma_pow1(7);
    lemma_odd_step(1, 7, 3, 343);
    lemma_odd_step(3, 343, 7, 823543);
    lemma_odd_step(7, 823543, 15, 4747561509943);
    lemma_odd_step(15, 4747561509943, 31, 11074261478625843323);
    lemma_odd_step(31, 11074261478625843323, 63, 12148266161370408270);
    lemma_odd_step(63, 12148266161370408270, 127, 7007601668316978083);
    lemma_odd_step(127, 7007601668316978083, 255, 8125271997680889877);
    lemma_odd_step(255, 8125271997680889877, 511, 2624486902016877951);
    lemma_odd_step(511, 2624486902016877951, 1023, 8253119735826302939);
    lemma_odd_step(1023, 8253119735826302939, 2047, 3543566522599720475);
    lemma_odd_step(2047, 3543566522599720475, 4095, 11981551684735969599);
    lemma_odd_step(4095, 11981551684735969599, 8191, 10062120588441922115);
    lemma_odd_step(8191, 10062120588441922115, 16383, 10485806445487905393);
    lemma_odd_step(16383, 10485806445487905393, 32767, 4139485063330164956);
    lemma_odd_step(32767, 4139485063330164956, 65535, 12134830135347446949);
    lemma_odd_step(65535, 12134830135347446949, 131071, 4326791766630348883);
    lemma_odd_step(131071, 4326791766630348883, 262143, 206761543466863628);
    lemma_odd_step(262143, 206761543466863628, 524287, 10086585273483141421);
    lemma_odd_step(524287, 10086585273483141421, 1048575, 1855730417186139594);
    lemma_odd_step(1048575, 1855730417186139594, 2097151, 7626447102712710903);
    lemma_odd_step(2097151, 7626447102712710903, 4194303, 7790920094560990216);
    lemma_odd_step(4194303, 7790920094560990216, 8388607, 5901922255895126089);
    lemma_odd_step(8388607, 5901922255895126089, 16777215, 8935258787870022506);
    lemma_odd_step(16777215, 8935258787870022506, 33554431, 13093775858033092690);
    lemma_odd_step(33554431, 13093775858033092690, 67108863, 11243737384857129666);
    lemma_odd_step(67108863, 11243737384857129666, 134217727, 2063617152444052883);
    lemma_odd_step(134217727, 2063617152444052883, 268435455, 13064848991504552222);
    lemma_odd_step(268435455, 13064848991504552222, 536870911, 16593403251012455084);
    lemma_odd_step(536870911, 16593403251012455084, 1073741823, 5859133952941131217);
    lemma_odd_step(1073741823, 5859133952941131217, 2147483647, 15659105665374529263);
    lemma_odd_step(2147483647, 15659105665374529263, 4294967295, 1753635133440165772);
    lemma_even_step(4294967295, 1753635133440165772, 8589934590, 4614640910117430873);
    lemma_even_step(8589934590, 4614640910117430873, 17179869180, 9123114210336311365);
    lemma_even_step(17179869180, 9123114210336311365, 34359738360, 16116352524544190054);
    lemma_even_step(34359738360, 16116352524544190054, 68719476720, 6414415596519834757);
    lemma_even_step(68719476720, 6414415596519834757, 137438953440, 1213594585890690845);
    lemma_even_step(137438953440, 1213594585890690845, 274877906880, 17096174751763063430);
    lemma_even_step(274877906880, 17096174751763063430, 549755813760, 5456943929260765144);
    lemma_even_step(549755813760, 5456943929260765144, 1099511627520, 9713644485405565297);
    lemma_even_step(1099511627520, 9713644485405565297, 2199023255040, 16905767614792059275);
    lemma_even_step(2199023255040, 16905767614792059275, 4398046510080, 5416168637041100469);
    lemma_even_step(4398046510080, 5416168637041100469, 8796093020160, 17654865857378133588);
    lemma_even_step(8796093020160, 17654865857378133588, 17592186040320, 3511170319078647661);
    lemma_even_step(17592186040320, 3511170319078647661, 35184372080640, 18146160046829613826);
    lemma_even_step(35184372080640, 18146160046829613826, 70368744161280, 9306717745644682924);
    lemma_even_step(70368744161280, 9306717745644682924, 140737488322560, 12380578893860276750);
    lemma_even_step(140737488322560, 12380578893860276750, 281474976645120, 6115771955107415310);
    lemma_even_step(281474976645120, 6115771955107415310, 562949953290240, 17776499369601055404);
    lemma_even_step(562949953290240, 17776499369601055404, 1125899906580480, 16207902636198568418);
    lemma_even_step(1125899906580480, 16207902636198568418, 2251799813160960, 1532612707718625687);
    lemma_even_step(2251799813160960, 1532612707718625687, 4503599626321920, 17492915097719143606);
    lemma_even_step(4503599626321920, 17492915097719143606, 9007199252643840, 455906449640507599);
    lemma_even_step(9007199252643840, 455906449640507599, 18014398505287680, 11353340290879379826);
    lemma_even_step(18014398505287680, 11353340290879379826, 36028797010575360, 1803076106186727246);
    lemma_even_step(36028797010575360, 1803076106186727246, 72057594021150720, 13797081185216407910);
    lemma_even_step(72057594021150720, 13797081185216407910, 144115188042301440, 17870292113338400769);
    lemma_even_step(144115188042301440, 17870292113338400769, 288230376084602880, 549755813888);
    lemma_even_step(288230376084602880, 549755813888, 576460752169205760, 70368744161280);
    lemma_even_step(576460752169205760, 70368744161280, 1152921504338411520, 17293822564807737345);
    lemma_even_step(1152921504338411520, 17293822564807737345, 2305843008676823040, 18446744069397807105);
    lemma_even_step(2305843008676823040, 18446744069397807105, 4611686017353646080, 281474976710656);
    lemma_even_step(4611686017353646080, 281474976710656, 9223372034707292160, 18446744069414584320);
}

/// An odd power of minus one is minus one, an even one is one.
proof fn lemma_minus_one(e: nat)
    ensures
        pow(-1, e) == if e % 2 == 0 {
            1int
        } else {
            -1int
        },
    decreases e,
{
    reveal(pow);
    if e > 0 {
        lemma_minus_one((e - 1) as nat);
    }
}

/// A power of what leaves one leaves one.
proof fn lemma_power_of_one(x: int, e: nat, q: int)
    requires
        q > 1,
        x % q == 1,
    ensures
        pow(x, e) % q == 1,
{
    lemma_pow_mod_noop(x, e, q);
    lemma1_pow(e);
    lemma_small_mod(1, q as nat);
}

/// An odd power of what leaves minus one leaves minus one.
proof fn lemma_power_of_minus_one(x: int, e: nat, q: int)
    requires
        q > 1,
        x % q == q - 1,
        e % 2 == 1,
    ensures
        pow(x, e) % q == q - 1,
{
    lemma_pow_mod_noop(x, e, q);
    lemma_pow_mod_noop(-1, e, q);
    lemma_minus_one(e);
    assert((-1int) % q == q - 1) by (nonlinear_arith)
        requires
            q > 1,
    ;
}

/// Where a power to a power of two leaves minus one, no smaller power than the
/// next but one leaves one.
proof fn lemma_order(b: int, t: nat, d: nat, q: int)
    requires
        q > 2,
        pow(b, pow2(t)) % q == q - 1,
        0 < d < pow2(t + 1),
    ensures
        pow(b, d) % q != 1,
    decreases t,
{
    lemma_pow2_unfold(t + 1);
    if pow(b, d) % q == 1 {
        if d % 2 == 1 {
            lemma_pow_multiplies(b, d, pow2(t));
            lemma_pow_multiplies(b, pow2(t), d);
            assert(d * pow2(t) == pow2(t) * d) by (nonlinear_arith);
            lemma_power_of_one(pow(b, d), pow2(t), q);
            lemma_power_of_minus_one(pow(b, pow2(t)), d, q);
        } else {
            assert(t > 0) by {
                lemma2_to64();
            }
            let half = (d / 2) as nat;
            let square = pow(b, 2);
            lemma_pow2_unfold(t);
            lemma_pow_multiplies(b, 2, half);
            lemma_pow_multiplies(b, 2, pow2((t - 1) as nat));
            lemma_order(square, (t - 1) as nat, half, q);
        }
    }
}

/// A prime factor of the large number is no smaller than the thirty-second
/// power of two.
proof fn lemma_factors_are_large(q: int)
    requires
        prime(q),
        divides(q, LARGE_PRIME as int),
    ensures
        q >= 4294967296,
{
    let p = LARGE_PRIME as int;
    let b = pow(7, 4294967295);
    lemma2_to64();
    if q == 2 {
        assert(p % 2 == 1);
    }
    lemma_half_way();
    lemma_pow_multiplies(7, 4294967295, pow2(31));
    assert(pow(b, pow2(31)) % p == p - 1);
    lemma_leaves_minus_one(pow(b, pow2(31)), p, q);
    let f = |i: int| pow(b, i as nat) % q;
    let from = set_int_range(0, 4294967296);
    let to = set_int_range(0, q);
    lemma_int_range(0, 4294967296);
    lemma_int_range(0, q);
    assert forall|i: int, j: int| 0 <= i < j < 4294967296 implies #[trigger] f(i) != #[trigger] f(
        j,
    ) by {
        lemma_powers_differ(b, i as nat, j as nat, q);
    }
    assert(vstd::relations::injective_on(f, from));
    assert forall|y: int| from.map(f).contains(y) implies to.contains(y) by {
        let i = choose|i: int| from.contains(i) && f(i) == y;
        assert(0 <= pow(b, i as nat) % q < q) by (nonlinear_arith)
            requires
                q > 0,
        ;
    }
    lemma_map_size(from, from.map(f), f);
    lemma_len_subset(from.map(f), to);
}

/// What leaves minus one leaves minus one by a divisor.
proof fn lemma_leaves_minus_one(x: int, p: int, q: int)
    requires
        q > 1,
        p > 1,
        divides(q, p),
        x % p == p - 1,
    ensures
        x % q == q - 1,
{
    lemma_fundamental_div_mod(x, p);
    lemma_fundamental_div_mod(p, q);
    let k = x / p + 1;
    let m = p / q;
    assert(x == q * (m * k) + -1) by (nonlinear_arith)
        requires
            x == p * (k - 1) + (p - 1),
            p == q * m,
    ;
    lemma_mod_multiples_vanish(m * k, -1, q);
    assert((-1int) % q == q - 1) by (nonlinear_arith)
        requires
            q > 1,
    ;
}

/// Powers below the order differ.
proof fn lemma_powers_differ(b: int, i: nat, j: nat, q: int)
    requires
        q > 2,
        pow(b, pow2(31)) % q == q - 1,
        i < j < 4294967296,
    ensures
        pow(b, i) % q != pow(b, j) % q,
{
    lemma2_to64();
    let n = pow2(32);
    let d = (j - i) as nat;
    let c = pow(b, (n - i) as nat);
    lemma_order(b, 31, d, q);
    if pow(b, i) % q == pow(b, j) % q {
        // A whole round leaves one.
        lemma_pow_multiplies(b, pow2(31), 2);
        let half = pow(b, pow2(31));
        lemma_square_is_pow2(half);
        lemma_mul_mod_noop_general(half, half, q);
        assert(((q - 1) * (q - 1)) % q == 1) by {
            assert((q - 1) * (q - 1) == q * (q - 2) + 1) by (nonlinear_arith);
            lemma_mod_multiples_vanish(q - 2, 1, q);
            lemma_small_mod(1, q as nat);
        }
        assert(pow(b, n) % q == 1);
        // So what is left of both, once they are filled up to it, is the same.
        lemma_pow_adds(b, i, (n - i) as nat);
        lemma_pow_adds(b, j, (n - i) as nat);
        lemma_mul_mod_noop_general(pow(b, i), c, q);
        lemma_mul_mod_noop_general(pow(b, j), c, q);
        lemma_pow_adds(b, n, d);
        assert((j + (n - i) as nat) as nat == n + d);
        lemma_mul_mod_noop_general(pow(b, n), pow(b, d), q);
        assert(pow(b, d) % q == 1);
    }
}

/// The large prime is one.
pub proof fn law_large_prime_is_prime()
    ensures
        prime(LARGE_PRIME as int),
{
    let p = LARGE_PRIME as int;
    if !prime(p) {
        let q = lemma_prime_factor(p);
        lemma_factors_are_large(q);
        assert(q * q >= 4294967296 * 4294967296) by (nonlinear_arith)
            requires
                q >= 4294967296,
        ;
    }
}

/// Below the large prime there is always a next prime to be found that fits in
/// a word.
pub proof fn law_there_is_a_next_prime(n: int)
    requires
        n < LARGE_PRIME,
    ensures
        exists|q: int| n < q <= u64::MAX && #[trigger] prime(q),
{
    law_large_prime_is_prime();
}

} // verus!
