//! The grid of binary32 magnitudes, and rounding onto it.
//!
//! Every finite binary32 magnitude is a whole number of units of 2^-149, the
//! smallest positive one. A magnitude is `m * 2^k` units with `m < 2^24`, and its
//! encoding, sign aside, is the number `k * 2^23 + m`; the encoding of infinity is
//! the first number that no finite magnitude has. An exact result is a fraction
//! `n / d` of units.
use vstd::arithmetic::power2::{
    lemma_pow2_pos, lemma_pow2_strictly_increases, lemma_pow2_unfold, pow2,
};
use vstd::prelude::*;

verus! {

/// The encoding of infinity, sign aside.
pub const INFINITY_BITS: u32 = 0x7f80_0000;

/// The whole number nearest to `n / d`; of two that are equally near, the even one.
pub open spec fn nearest(n: nat, d: nat) -> nat {
    let q: nat = n / d;
    let r: nat = n % d;
    if 2 * r < d || (2 * r == d && q % 2 == 0) {
        q
    } else {
        q + 1
    }
}

/// How often `q` must be halved to be below 2^24: the grid at `q` units has spacing
/// `2^quantum(q)` units.
pub open spec fn quantum(q: nat) -> nat
    decreases q,
{
    if q < 0x100_0000 {
        0
    } else {
        1 + quantum(q / 2)
    }
}

/// The encoding of the magnitude nearest to `n / d` units, ties to the even encoding,
/// infinity where that is too large.
pub open spec fn round_bits(n: nat, d: nat) -> nat {
    let k: nat = quantum(n / d);
    let b: nat = k * 0x80_0000 + nearest(n, d * pow2(k));
    if b < INFINITY_BITS {
        b
    } else {
        INFINITY_BITS as nat
    }
}

/// The power of two that scales the magnitude with encoding `b`.
pub open spec fn exponent(b: nat) -> nat {
    if b < 0x100_0000 {
        0
    } else {
        (b / 0x80_0000 - 1) as nat
    }
}

/// The whole number that is scaled.
pub open spec fn significand(b: nat) -> nat {
    if b < 0x100_0000 {
        b
    } else {
        b % 0x80_0000 + 0x80_0000
    }
}

/// The magnitude with encoding `b`, in units.
pub open spec fn magnitude(b: nat) -> nat {
    significand(b) * pow2(exponent(b))
}

pub proof fn lemma_nearest_bounds(n: nat, d: nat)
    requires
        d > 0,
    ensures
        2 * (nearest(n, d) * d) <= 2 * n + d,
        2 * n <= 2 * (nearest(n, d) * d) + d,
        2 * (nearest(n, d) * d) == 2 * n + d ==> nearest(n, d) % 2 == 0,
        2 * n == 2 * (nearest(n, d) * d) + d ==> nearest(n, d) % 2 == 0,
{
    let q: nat = n / d;
    let r: nat = n % d;
    vstd::arithmetic::div_mod::lemma_fundamental_div_mod(n as int, d as int);
    vstd::arithmetic::div_mod::lemma_mod_bound(n as int, d as int);
    assert((q + 1) * d == q * d + d) by (nonlinear_arith);
    assert(d * q == q * d) by (nonlinear_arith);
}

/// `nearest` is the only whole number within half a step, even where a tie.
pub proof fn lemma_nearest_unique(n: nat, d: nat, m: nat)
    requires
        d > 0,
        2 * (m * d) <= 2 * n + d,
        2 * n <= 2 * (m * d) + d,
        2 * (m * d) == 2 * n + d ==> m % 2 == 0,
        2 * n == 2 * (m * d) + d ==> m % 2 == 0,
    ensures
        nearest(n, d) == m,
{
    let a: nat = nearest(n, d);
    lemma_nearest_bounds(n, d);
    if a > m {
        assert(2 * (a * d) >= 2 * (m * d) + 2 * d) by (nonlinear_arith)
            requires
                a >= m + 1,
        ;
        assert(a == m + 1) by (nonlinear_arith)
            requires
                a >= m + 1,
                2 * (a * d) <= 2 * (m * d) + 2 * d,
                d > 0,
        ;
    } else if a < m {
        assert(2 * (m * d) >= 2 * (a * d) + 2 * d) by (nonlinear_arith)
            requires
                m >= a + 1,
        ;
        assert(m == a + 1) by (nonlinear_arith)
            requires
                m >= a + 1,
                2 * (m * d) <= 2 * (a * d) + 2 * d,
                d > 0,
        ;
    }
}

/// A common factor does not change what is nearest.
pub proof fn lemma_nearest_scale(n: nat, d: nat, c: nat)
    requires
        d > 0,
        c > 0,
    ensures
        nearest(n * c, d * c) == nearest(n, d),
{
    let m: nat = nearest(n, d);
    lemma_nearest_bounds(n, d);
    let md: nat = m * d;
    assert(m * (d * c) == md * c) by (nonlinear_arith)
        requires
            md == m * d,
    ;
    assert(2 * (md * c) <= 2 * (n * c) + d * c) by (nonlinear_arith)
        requires
            2 * md <= 2 * n + d,
    ;
    assert(2 * (n * c) <= 2 * (md * c) + d * c) by (nonlinear_arith)
        requires
            2 * n <= 2 * md + d,
    ;
    if 2 * (md * c) == 2 * (n * c) + d * c {
        assert(2 * md == 2 * n + d) by (nonlinear_arith)
            requires
                2 * (md * c) == 2 * (n * c) + d * c,
                c > 0,
        ;
    }
    if 2 * (n * c) == 2 * (md * c) + d * c {
        assert(2 * n == 2 * md + d) by (nonlinear_arith)
            requires
                2 * (n * c) == 2 * (md * c) + d * c,
                c > 0,
        ;
    }
    assert(d * c > 0) by (nonlinear_arith)
        requires
            d > 0,
            c > 0,
    ;
    lemma_nearest_unique(n * c, d * c, m);
}

/// A larger fraction has no smaller nearest whole number.
pub proof fn lemma_nearest_monotone(n1: nat, d1: nat, n2: nat, d2: nat)
    requires
        d1 > 0,
        d2 > 0,
        n1 * d2 <= n2 * d1,
    ensures
        nearest(n1, d1) <= nearest(n2, d2),
{
    let a: nat = nearest(n1, d1);
    let b: nat = nearest(n2, d2);
    lemma_nearest_bounds(n1, d1);
    lemma_nearest_bounds(n2, d2);
    if a > b {
        let ad: nat = a * d1;
        let bd: nat = b * d2;
        assert(2 * (ad * d2) <= 2 * (n1 * d2) + d1 * d2) by (nonlinear_arith)
            requires
                2 * ad <= 2 * n1 + d1,
        ;
        assert(2 * (n2 * d1) <= 2 * (bd * d1) + d2 * d1) by (nonlinear_arith)
            requires
                2 * n2 <= 2 * bd + d2,
        ;
        assert(ad * d2 == a * (d1 * d2)) by (nonlinear_arith)
            requires
                ad == a * d1,
        ;
        assert(bd * d1 == b * (d1 * d2)) by (nonlinear_arith)
            requires
                bd == b * d2,
        ;
        let dd: nat = d1 * d2;
        assert(d2 * d1 == dd) by (nonlinear_arith)
            requires
                dd == d1 * d2,
        ;
        assert(dd > 0) by (nonlinear_arith)
            requires
                dd == d1 * d2,
                d1 > 0,
                d2 > 0,
        ;
        assert(a * dd >= b * dd + dd) by (nonlinear_arith)
            requires
                a >= b + 1,
        ;
        assert(a * dd == b * dd + dd);
        assert(a == b + 1) by (nonlinear_arith)
            requires
                a * dd == b * dd + dd,
                dd > 0,
        ;
        assert(2 * ad == 2 * n1 + d1) by (nonlinear_arith)
            requires
                2 * (ad * d2) == 2 * (n1 * d2) + d1 * d2,
                d2 > 0,
        ;
        assert(2 * n2 == 2 * bd + d2) by (nonlinear_arith)
            requires
                2 * (n2 * d1) == 2 * (bd * d1) + d2 * d1,
                d1 > 0,
        ;
    }
}

pub proof fn lemma_quantum(q: nat)
    ensures
        q < 0x100_0000 * pow2(quantum(q)),
        quantum(q) > 0 ==> q >= 0x80_0000 * pow2(quantum(q)),
    decreases q,
{
    if q < 0x100_0000 {
        lemma_pow2_pos(0);
    } else {
        lemma_quantum(q / 2);
        lemma_pow2_unfold(quantum(q));
        if quantum(q) == 1 {
            vstd::arithmetic::power2::lemma_pow2(0);
            vstd::arithmetic::power2::lemma2_to64();
        }
    }
}

pub proof fn lemma_quantum_unique(q: nat, k: nat)
    requires
        q < 0x100_0000 * pow2(k),
        k > 0 ==> q >= 0x80_0000 * pow2(k),
    ensures
        quantum(q) == k,
    decreases k,
{
    if k == 0 {
        vstd::arithmetic::power2::lemma2_to64();
    } else {
        lemma_pow2_unfold(k);
        lemma_pow2_pos((k - 1) as nat);
        lemma_quantum_unique(q / 2, (k - 1) as nat);
    }
}

pub proof fn lemma_quantum_monotone(q1: nat, q2: nat)
    requires
        q1 <= q2,
    ensures
        quantum(q1) <= quantum(q2),
    decreases q1,
{
    if q1 >= 0x100_0000 {
        lemma_quantum_monotone(q1 / 2, q2 / 2);
    }
}

/// A fraction is below a whole number where its floor is.
pub proof fn lemma_floor_below(n: nat, d: nat, c: nat)
    requires
        d > 0,
    ensures
        n / d < c <==> n < d * c,
{
    vstd::arithmetic::div_mod::lemma_fundamental_div_mod(n as int, d as int);
    vstd::arithmetic::div_mod::lemma_mod_bound(n as int, d as int);
    let q: nat = n / d;
    if q < c {
        assert(d * q + d <= d * c) by (nonlinear_arith)
            requires
                q + 1 <= c,
        ;
    } else {
        assert(d * q >= d * c) by (nonlinear_arith)
            requires
                q >= c,
        ;
    }
}

/// What the exponent of a rounding says of the fraction.
pub proof fn lemma_quantum_fraction(n: nat, d: nat)
    requires
        d > 0,
    ensures
        d * pow2(quantum(n / d)) > 0,
        n < 0x100_0000 * (d * pow2(quantum(n / d))),
        quantum(n / d) > 0 ==> n >= 0x80_0000 * (d * pow2(quantum(n / d))),
        nearest(n, d * pow2(quantum(n / d))) <= 0x100_0000,
        quantum(n / d) > 0 ==> nearest(n, d * pow2(quantum(n / d))) >= 0x80_0000,
{
    let k: nat = quantum(n / d);
    let p: nat = pow2(k);
    lemma_quantum(n / d);
    lemma_pow2_pos(k);
    lemma_floor_below(n, d, 0x100_0000 * p);
    lemma_floor_below(n, d, 0x80_0000 * p);
    assert(d * (0x100_0000 * p) == 0x100_0000 * (d * p)) by (nonlinear_arith);
    assert(d * (0x80_0000 * p) == 0x80_0000 * (d * p)) by (nonlinear_arith);
    assert(d * p > 0) by (nonlinear_arith)
        requires
            d > 0,
            p > 0,
    ;
    let e: nat = d * p;
    let m: nat = nearest(n, e);
    lemma_nearest_bounds(n, e);
    assert(m <= 0x100_0000) by (nonlinear_arith)
        requires
            2 * (m * e) <= 2 * n + e,
            n < 0x100_0000 * e,
            e > 0,
    ;
    if k > 0 {
        assert(m >= 0x80_0000) by (nonlinear_arith)
            requires
                2 * n <= 2 * (m * e) + e,
                n >= 0x80_0000 * e,
                e > 0,
        ;
    }
}

/// A larger fraction has no smaller rounding.
pub proof fn lemma_round_monotone(n1: nat, d1: nat, n2: nat, d2: nat)
    requires
        d1 > 0,
        d2 > 0,
        n1 * d2 <= n2 * d1,
    ensures
        round_bits(n1, d1) <= round_bits(n2, d2),
{
    let q1: nat = n1 / d1;
    let q2: nat = n2 / d2;
    assert(q1 <= q2) by {
        lemma_floor_below(n2, d2, q2 + 1);
        lemma_floor_below(n1, d1, q2 + 1);
        assert(n1 < d1 * (q2 + 1)) by (nonlinear_arith)
            requires
                n2 < d2 * (q2 + 1),
                n1 * d2 <= n2 * d1,
                d1 > 0,
                d2 > 0,
        ;
    }
    lemma_quantum_monotone(q1, q2);
    let k1: nat = quantum(q1);
    let k2: nat = quantum(q2);
    lemma_quantum_fraction(n1, d1);
    lemma_quantum_fraction(n2, d2);
    if k1 == k2 {
        let p: nat = pow2(k1);
        lemma_pow2_pos(k1);
        assert(n1 * (d2 * p) <= n2 * (d1 * p)) by (nonlinear_arith)
            requires
                n1 * d2 <= n2 * d1,
        ;
        lemma_nearest_monotone(n1, d1 * p, n2, d2 * p);
    }
}

/// An encoding is made up of its exponent and its significand.
pub proof fn lemma_encoding_parts(b: nat)
    ensures
        b == exponent(b) * 0x80_0000 + significand(b),
        significand(b) < 0x100_0000,
        exponent(b) > 0 ==> significand(b) >= 0x80_0000,
        b < INFINITY_BITS ==> exponent(b) <= 253,
{
}

/// The encoding that has a given exponent and significand.
pub proof fn lemma_encoding_of_parts(k: nat, m: nat)
    requires
        m < 0x100_0000,
        k > 0 ==> m >= 0x80_0000,
    ensures
        exponent(k * 0x80_0000 + m) == k,
        significand(k * 0x80_0000 + m) == m,
{
}

/// A magnitude on the grid is its own rounding.
pub proof fn lemma_round_exact(b: nat, d: nat)
    requires
        b <= INFINITY_BITS,
        d > 0,
    ensures
        round_bits(magnitude(b) * d, d) == b,
{
    let k: nat = exponent(b);
    let m: nat = significand(b);
    let p: nat = pow2(k);
    let v: nat = magnitude(b);
    lemma_encoding_parts(b);
    lemma_pow2_pos(k);
    vstd::arithmetic::div_mod::lemma_div_by_multiple(v as int, d as int);
    assert(v * d / d == v);
    assert(v < 0x100_0000 * p) by (nonlinear_arith)
        requires
            v == m * p,
            m < 0x100_0000,
            p > 0,
    ;
    if k > 0 {
        assert(v >= 0x80_0000 * p) by (nonlinear_arith)
            requires
                v == m * p,
                m >= 0x80_0000,
        ;
    }
    lemma_quantum_unique(v, k);
    assert(v * d == m * (d * p)) by (nonlinear_arith)
        requires
            v == m * p,
    ;
    assert(d * p > 0) by (nonlinear_arith)
        requires
            d > 0,
            p > 0,
    ;
    lemma_nearest_unique(v * d, d * p, m);
}

/// Larger encodings stand for larger magnitudes.
pub proof fn lemma_magnitude_monotone(a: nat, b: nat)
    requires
        a < b,
    ensures
        magnitude(a) < magnitude(b),
{
    lemma_encoding_parts(a);
    lemma_encoding_parts(b);
    let ka: nat = exponent(a);
    let kb: nat = exponent(b);
    let ma: nat = significand(a);
    let mb: nat = significand(b);
    lemma_pow2_pos(ka);
    lemma_pow2_pos(kb);
    let pa: nat = pow2(ka);
    let pb: nat = pow2(kb);
    if ka == kb {
        assert(ma * pa < mb * pa) by (nonlinear_arith)
            requires
                ma < mb,
                pa > 0,
        ;
    } else {
        assert(ka < kb);
        lemma_pow2_unfold(kb);
        if ka < kb - 1 {
            lemma_pow2_strictly_increases(ka, (kb - 1) as nat);
        }
        assert(ma * pa < mb * pb) by (nonlinear_arith)
            requires
                ma < 0x100_0000,
                mb >= 0x80_0000,
                pb >= 2 * pa,
                pa > 0,
        ;
    }
}

/// A rounding that stays finite is off by at most half a step of the grid there.
pub proof fn lemma_round_error(n: nat, d: nat)
    requires
        d > 0,
        round_bits(n, d) < INFINITY_BITS,
    ensures
        2 * (magnitude(round_bits(n, d)) * d) <= 2 * n + d * pow2(quantum(n / d)),
        2 * n <= 2 * (magnitude(round_bits(n, d)) * d) + d * pow2(quantum(n / d)),
{
    let k: nat = quantum(n / d);
    let p: nat = pow2(k);
    let e: nat = d * p;
    let m: nat = nearest(n, e);
    let b: nat = k * 0x80_0000 + m;
    lemma_quantum_fraction(n, d);
    lemma_nearest_bounds(n, e);
    if m < 0x100_0000 {
        lemma_encoding_of_parts(k, m);
        assert(m * p * d == m * e) by (nonlinear_arith)
            requires
                e == d * p,
        ;
    } else {
        lemma_encoding_of_parts(k + 1, 0x80_0000);
        assert(b == (k + 1) * 0x80_0000 + 0x80_0000);
        lemma_pow2_unfold(k + 1);
        assert(0x80_0000 * (2 * p) * d == m * e) by (nonlinear_arith)
            requires
                e == d * p,
                m == 0x100_0000,
        ;
    }
}

/// A common factor does not change the rounding.
pub proof fn lemma_round_scale(n: nat, d: nat, c: nat)
    requires
        d > 0,
        c > 0,
    ensures
        d * c > 0,
        round_bits(n * c, d * c) == round_bits(n, d),
{
    assert(d * c > 0) by (nonlinear_arith)
        requires
            d > 0,
            c > 0,
    ;
    let q: nat = n / d;
    lemma_floor_below(n, d, q + 1);
    lemma_floor_below(n, d, q);
    assert(n * c < (d * c) * (q + 1)) by (nonlinear_arith)
        requires
            n < d * (q + 1),
            c > 0,
    ;
    assert(n * c >= (d * c) * q) by (nonlinear_arith)
        requires
            n >= d * q,
    ;
    lemma_floor_below(n * c, d * c, q + 1);
    lemma_floor_below(n * c, d * c, q);
    assert((n * c) / (d * c) == q);
    let p: nat = pow2(quantum(q));
    lemma_pow2_pos(quantum(q));
    assert(d * p > 0) by (nonlinear_arith)
        requires
            d > 0,
            p > 0,
    ;
    assert((d * c) * p == (d * p) * c) by (nonlinear_arith);
    lemma_nearest_scale(n, d * p, c);
}

} // verus!
