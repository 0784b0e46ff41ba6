//! What the operations on [`Single`] give where a result is on the grid, and within
//! which bounds they stay.
use crate::rounding::{
    lemma_encoding_of_parts, lemma_floor_below, lemma_magnitude_monotone, lemma_quantum,
    lemma_quantum_fraction, lemma_round_error, lemma_round_exact, lemma_round_monotone, magnitude,
    quantum, round_bits, INFINITY_BITS,
};
use crate::single::{fadd, fdiv, fle, flt, fmul, fneg, from_int, fsub, signed, size, zero, Single};
use vstd::arithmetic::power2::{
    lemma2_to64, lemma_pow2_adds, lemma_pow2_pos, lemma_pow2_strictly_increases, lemma_pow2_unfold,
    pow2,
};
use vstd::prelude::*;

verus! {

/// `x` is the whole number `v`.
pub open spec fn is_whole(x: Single, v: int) -> bool {
    x.is_finite() && x.units() == v * pow2(149)
}

/// `x` is a finite number whose size is at most `2^e`.
pub open spec fn bounded(x: Single, e: nat) -> bool {
    x.is_finite() && magnitude(x.unsigned()) <= pow2(149 + e)
}

pub proof fn lemma_signed(neg: bool, b: nat)
    requires
        b <= INFINITY_BITS,
    ensures
        signed(neg, b).unsigned() == b,
        signed(neg, b).negative() == neg,
{
}

pub proof fn lemma_magnitude_zero()
    ensures
        magnitude(0) == 0,
{
    assert(0 * pow2(0) == 0) by (nonlinear_arith);
}

/// A significand and an exponent, as an encoding.
pub proof fn lemma_on_grid(m: nat, k: nat) -> (b: nat)
    requires
        m < 0x100_0000,
        k <= 253,
    ensures
        b < INFINITY_BITS,
        magnitude(b) == m * pow2(k),
    decreases k,
{
    if m >= 0x80_0000 || k == 0 {
        lemma_encoding_of_parts(k, m);
        k * 0x80_0000 + m
    } else {
        lemma_pow2_unfold(k);
        assert(m * pow2(k) == (2 * m) * pow2((k - 1) as nat)) by (nonlinear_arith)
            requires
                pow2(k) == 2 * pow2((k - 1) as nat),
        ;
        lemma_on_grid(2 * m, (k - 1) as nat)
    }
}

/// The encoding of `2^e`.
pub proof fn lemma_power_on_grid(e: nat) -> (b: nat)
    requires
        e <= 253,
    ensures
        b < INFINITY_BITS,
        magnitude(b) == pow2(e),
{
    lemma_on_grid(1, e)
}

/// A result on the grid is exact.
pub proof fn lemma_round_on_grid(n: nat, d: nat, m: nat, k: nat)
    requires
        d > 0,
        m < 0x100_0000,
        k <= 253,
        n == (m * pow2(k)) * d,
    ensures
        round_bits(n, d) < INFINITY_BITS,
        magnitude(round_bits(n, d)) == m * pow2(k),
{
    let b: nat = lemma_on_grid(m, k);
    lemma_round_exact(b, d);
}

/// The whole numbers up to 2^24 are on the grid.
pub proof fn lemma_round_whole(v: nat, n: nat, d: nat)
    requires
        v <= 0x100_0000,
        d > 0,
        n == (v * pow2(149)) * d,
    ensures
        round_bits(n, d) < INFINITY_BITS,
        magnitude(round_bits(n, d)) == v * pow2(149),
{
    if v < 0x100_0000 {
        lemma_round_on_grid(n, d, v, 149);
    } else {
        lemma_pow2_unfold(150);
        assert(v * pow2(149) == 0x80_0000 * pow2(150));
        lemma_round_on_grid(n, d, 0x80_0000, 150);
    }
}

/// Numbers are ordered as their values.
pub proof fn lemma_order(x: Single, y: Single)
    requires
        x.is_finite(),
        y.is_finite(),
    ensures
        flt(x, y) <==> x.units() < y.units(),
        fle(x, y) <==> x.units() <= y.units(),
{
    let a: nat = x.unsigned();
    let b: nat = y.unsigned();
    lemma_magnitude_zero();
    if a > 0 {
        lemma_magnitude_monotone(0, a);
    }
    if b > 0 {
        lemma_magnitude_monotone(0, b);
    }
    if a < b {
        lemma_magnitude_monotone(a, b);
    } else if b < a {
        lemma_magnitude_monotone(b, a);
    }
}

pub proof fn lemma_opposite(x: Single)
    requires
        x.is_finite(),
    ensures
        fneg(x).is_finite(),
        fneg(x).unsigned() == x.unsigned(),
        fneg(x).units() == -x.units(),
{
}

/// The size of a whole number.
pub proof fn lemma_whole_size(x: Single, v: int)
    requires
        is_whole(x, v),
    ensures
        magnitude(x.unsigned()) == size(v) * pow2(149),
        v > 0 ==> !x.negative() && !x.is_zero(),
        v < 0 ==> x.negative() && !x.is_zero(),
        v == 0 ==> x.is_zero(),
{
    lemma_pow2_pos(149);
    let u: nat = pow2(149);
    let m: nat = magnitude(x.unsigned());
    lemma_magnitude_zero();
    if x.unsigned() > 0 {
        lemma_magnitude_monotone(0, x.unsigned());
    }
    if v >= 0 {
        assert(v * u >= 0) by (nonlinear_arith)
            requires
                v >= 0,
        ;
    }
    if v > 0 {
        assert(v * u > 0) by (nonlinear_arith)
            requires
                v > 0,
                u > 0,
        ;
    }
    if v < 0 {
        assert(v * u < 0) by (nonlinear_arith)
            requires
                v < 0,
                u > 0,
        ;
        assert((-v) * u == -(v * u)) by (nonlinear_arith);
    }
    if v == 0 {
        assert(v * u == 0) by (nonlinear_arith)
            requires
                v == 0,
        ;
    }
}

/// Whole numbers up to 2^24 convert exactly.
pub proof fn lemma_from_int(v: int)
    requires
        -0x100_0000 <= v <= 0x100_0000,
    ensures
        is_whole(from_int(v), v),
        from_int(v).negative() == (v < 0),
{
    reveal(from_int);
    lemma_round_whole(size(v), size(v) * pow2(149), 1);
    assert((-v) * pow2(149) == -(v * pow2(149))) by (nonlinear_arith);
}

/// Sums of whole numbers up to 2^24 are exact.
pub proof fn lemma_whole_sum(x: Single, a: int, y: Single, b: int)
    requires
        is_whole(x, a),
        is_whole(y, b),
        -0x100_0000 <= a + b <= 0x100_0000,
    ensures
        is_whole(fadd(x, y), a + b),
{
    reveal(fadd);
    let u: nat = pow2(149);
    lemma_pow2_pos(149);
    let v: int = x.units() + y.units();
    assert((a + b) * u == a * u + b * u) by (nonlinear_arith);
    assert(size(v) == size(a + b) * u) by {
        if a + b < 0 {
            assert((a + b) * u < 0) by (nonlinear_arith)
                requires
                    a + b < 0,
                    u > 0,
            ;
            assert((-(a + b)) * u == -((a + b) * u)) by (nonlinear_arith);
        } else {
            assert((a + b) * u >= 0) by (nonlinear_arith)
                requires
                    a + b >= 0,
            ;
        }
    }
    lemma_round_whole(size(a + b), size(v), 1);
}

/// Differences of whole numbers up to 2^24 are exact.
pub proof fn lemma_whole_difference(x: Single, a: int, y: Single, b: int)
    requires
        is_whole(x, a),
        is_whole(y, b),
        -0x100_0000 <= a - b <= 0x100_0000,
    ensures
        is_whole(fsub(x, y), a - b),
{
    lemma_opposite(y);
    assert((-b) * pow2(149) == -(b * pow2(149))) by (nonlinear_arith);
    lemma_whole_sum(x, a, fneg(y), -b);
}

/// Products of whole numbers up to 2^24 are exact.
pub proof fn lemma_whole_product(x: Single, a: int, y: Single, b: int)
    requires
        is_whole(x, a),
        is_whole(y, b),
        -0x100_0000 <= a * b <= 0x100_0000,
    ensures
        is_whole(fmul(x, y), a * b),
{
    reveal(fmul);
    let u: nat = pow2(149);
    lemma_pow2_pos(149);
    lemma_whole_size(x, a);
    lemma_whole_size(y, b);
    let sa: nat = size(a);
    let sb: nat = size(b);
    assert(size(a * b) == sa * sb) by (nonlinear_arith)
        requires
            sa == size(a),
            sb == size(b),
    ;
    assert((sa * u) * (sb * u) == ((sa * sb) * u) * u) by (nonlinear_arith);
    lemma_round_whole(sa * sb, (sa * u) * (sb * u), u);
    let neg = x.negative() != y.negative();
    let r: nat = round_bits((sa * u) * (sb * u), u);
    lemma_signed(neg, r);
    assert(a * b < 0 <==> (a < 0 && b > 0) || (a > 0 && b < 0)) by (nonlinear_arith);
    assert(a * b == 0 <==> (a == 0 || b == 0)) by (nonlinear_arith);
    assert((-(a * b)) * u == -((a * b) * u)) by (nonlinear_arith);
    if a * b == 0 {
        assert((a * b) * u == 0) by (nonlinear_arith)
            requires
                a * b == 0,
        ;
    }
}

/// What is at most `2^e` units rounds to at most `2^e` units.
pub proof fn lemma_round_at_most_power(n: nat, d: nat, e: nat)
    requires
        d > 0,
        e <= 253,
        n <= pow2(e) * d,
    ensures
        round_bits(n, d) < INFINITY_BITS,
        magnitude(round_bits(n, d)) <= pow2(e),
{
    let b: nat = lemma_power_on_grid(e);
    lemma_round_exact(b, d);
    assert(n * d <= (pow2(e) * d) * d) by (nonlinear_arith)
        requires
            n <= pow2(e) * d,
    ;
    lemma_round_monotone(n, d, pow2(e) * d, d);
    if round_bits(n, d) < b {
        lemma_magnitude_monotone(round_bits(n, d), b);
    }
}

pub proof fn lemma_bounded_from_int(v: nat, e: nat)
    requires
        v <= pow2(e),
        e <= 104,
    ensures
        bounded(from_int(v as int), e),
        !from_int(v as int).negative(),
{
    reveal(from_int);
    lemma_pow2_adds(e, 149);
    assert(v * pow2(149) <= pow2(e) * pow2(149)) by (nonlinear_arith)
        requires
            v <= pow2(e),
    ;
    lemma_round_at_most_power(v * pow2(149), 1, 149 + e);
}

pub proof fn lemma_bounded_larger(x: Single, e: nat, e2: nat)
    requires
        bounded(x, e),
        e <= e2,
    ensures
        bounded(x, e2),
{
    if e < e2 {
        lemma_pow2_strictly_increases(149 + e, 149 + e2);
    }
}

/// The size of a sum.
pub proof fn lemma_bounded_sum(x: Single, y: Single, e: nat)
    requires
        bounded(x, e),
        bounded(y, e),
        e <= 100,
    ensures
        bounded(fadd(x, y), e + 1),
        bounded(fsub(x, y), e + 1),
        !x.negative() && !y.negative() ==> !fadd(x, y).negative(),
        !x.negative() && !y.negative() ==> bounded(fsub(x, y), e),
{
    reveal(fadd);
    lemma_pow2_unfold(150 + e);
    let v: int = x.units() + y.units();
    lemma_round_at_most_power(size(v), 1, 150 + e);
    lemma_opposite(y);
    let w: int = x.units() - y.units();
    lemma_round_at_most_power(size(w), 1, 150 + e);
    if !x.negative() && !y.negative() {
        lemma_round_at_most_power(size(w), 1, 149 + e);
    }
}

/// The size of a product.
pub proof fn lemma_bounded_product(x: Single, y: Single, e1: nat, e2: nat)
    requires
        bounded(x, e1),
        bounded(y, e2),
        e1 + e2 <= 100,
    ensures
        bounded(fmul(x, y), e1 + e2),
        x.negative() == y.negative() ==> !fmul(x, y).negative(),
{
    reveal(fmul);
    let a: nat = magnitude(x.unsigned());
    let b: nat = magnitude(y.unsigned());
    lemma_pow2_adds(149 + e1, 149 + e2);
    lemma_pow2_adds(149 + e1 + e2, 149);
    lemma_pow2_pos(149);
    assert(a * b <= pow2(149 + e1) * pow2(149 + e2)) by (nonlinear_arith)
        requires
            a <= pow2(149 + e1),
            b <= pow2(149 + e2),
    ;
    lemma_round_at_most_power(a * b, pow2(149), 149 + e1 + e2);
}

/// The size of a quotient whose divisor is at least `2^e2`.
pub proof fn lemma_bounded_quotient(x: Single, y: Single, e1: nat, e2: nat)
    requires
        bounded(x, e1),
        y.is_finite(),
        magnitude(y.unsigned()) >= pow2(149 + e2),
        e2 <= e1 <= 100,
    ensures
        bounded(fdiv(x, y), (e1 - e2) as nat),
{
    reveal(fdiv);
    let a: nat = magnitude(x.unsigned());
    let b: nat = magnitude(y.unsigned());
    let e: nat = (e1 - e2) as nat;
    lemma_pow2_pos(149 + e2);
    lemma_magnitude_zero();
    lemma_pow2_adds(149 + e1, 149);
    lemma_pow2_adds(149 + e, 149 + e2);
    assert(a * pow2(149) <= pow2(149 + e1) * pow2(149)) by (nonlinear_arith)
        requires
            a <= pow2(149 + e1),
    ;
    assert(pow2(149 + e) * b >= pow2(149 + e) * pow2(149 + e2)) by (nonlinear_arith)
        requires
            b >= pow2(149 + e2),
    ;
    lemma_round_at_most_power(a * pow2(149), b, 149 + e);
}

/// A quotient of whole numbers against a whole number: rounding does not move it onto
/// or across the number.
pub proof fn lemma_quotient_below(x: Single, a: int, y: Single, b: int, z: Single, c: int)
    requires
        is_whole(x, a),
        is_whole(y, b),
        is_whole(z, c),
        -0x100_0000 <= a <= 0x100_0000,
        0 < b <= 0x2000,
        b == 0x2000 ==> a % 2 == 0,
        0 <= c <= 0x1000,
    ensures
        fdiv(x, y).is_finite(),
        flt(fdiv(x, y), z) <==> a < c * b,
{
    reveal(fdiv);
    let u: nat = pow2(149);
    lemma_pow2_pos(149);
    lemma_whole_size(x, a);
    lemma_whole_size(y, b);
    lemma_whole_size(z, c);
    let sa: nat = size(a);
    let n: nat = (sa * u) * u;
    let d: nat = (b as nat) * u;
    let r: nat = round_bits(n, d);
    let q = fdiv(x, y);
    assert(d > 0) by (nonlinear_arith)
        requires
            d == b * u,
            b > 0,
            u > 0,
    ;
    assert(q == signed(x.negative(), r));
    // The quotient is finite.
    lemma2_to64();
    lemma_pow2_adds(24, 149);
    assert(n <= pow2(173) * d) by {
        assert(sa * u <= 0x100_0000 * u) by (nonlinear_arith)
            requires
                sa <= 0x100_0000,
        ;
        assert((sa * u) * u <= (0x100_0000 * u) * u) by (nonlinear_arith)
            requires
                sa * u <= 0x100_0000 * u,
        ;
        assert((0x100_0000 * u) * u <= (0x100_0000 * u) * d) by (nonlinear_arith)
            requires
                d == b * u,
                b >= 1,
        ;
    }
    lemma_round_at_most_power(n, d, 173);
    lemma_signed(x.negative(), r);
    lemma_order(q, z);
    let m: nat = magnitude(r);
    let zc: nat = (c as nat) * u;
    assert(z.units() == zc);
    // n / d against zc: n < zc * d exactly where sa < c * b.
    let cb: nat = (c as nat) * (b as nat);
    assert(zc * d == (cb * u) * u) by (nonlinear_arith)
        requires
            zc == c * u,
            d == b * u,
            cb == c * b,
    ;
    if a >= 0 {
        if sa >= cb {
            assert((sa * u) * u >= (cb * u) * u) by (nonlinear_arith)
                requires
                    sa >= cb,
            ;
            // The rounding of something no smaller than a number on the grid.
            lemma_round_exact(z.unsigned(), d);
            assert(magnitude(z.unsigned()) == zc);
            assert((zc * d) * d <= n * d) by (nonlinear_arith)
                requires
                    zc * d <= n,
            ;
            lemma_round_monotone(zc * d, d, n, d);
            if z.unsigned() < r {
                lemma_magnitude_monotone(z.unsigned(), r);
            }
            assert(m >= zc);
            if x.negative() {
                assert(n == 0) by (nonlinear_arith)
                    requires
                        n == (sa * u) * u,
                        sa == 0,
                ;
                lemma_magnitude_zero();
                lemma_round_exact(0, d);
                assert(magnitude(0) * d == 0) by (nonlinear_arith)
                    requires
                        magnitude(0) == 0,
                ;
                assert(r == 0);
            }
        } else {
            let k: nat = quantum(n / d);
            let p: nat = pow2(k);
            lemma_round_error(n, d);
            lemma_quantum_fraction(n, d);
            lemma_pow2_pos(k);
            // n + u * u <= zc * d, and twice that where b is 2^13
            assert((sa * u) * u + u * u <= (cb * u) * u) by (nonlinear_arith)
                requires
                    sa + 1 <= cb,
            ;
            if b == 0x2000 {
                assert(cb == 0x2000 * c) by (nonlinear_arith)
                    requires
                        cb == c * b,
                        b == 0x2000,
                ;
                assert((sa * u) * u + 2 * (u * u) <= (cb * u) * u) by (nonlinear_arith)
                    requires
                        sa + 2 <= cb,
                ;
            }
            assert(u * u > 0) by (nonlinear_arith)
                requires
                    u > 0,
            ;
            // The spacing there is at most 2^137, since n / d < zc <= 2^161.
            assert(k <= 137) by {
                lemma_quantum(n / d);
                lemma_floor_below(n, d, zc);
                assert(zc * d == d * zc) by (nonlinear_arith);
                assert(zc <= 0x1000 * u) by (nonlinear_arith)
                    requires
                        zc == c * u,
                        c <= 0x1000,
                ;
                lemma_pow2_adds(12, 149);
                if k > 137 {
                    if k > 138 {
                        lemma_pow2_strictly_increases(138, k);
                    }
                    lemma_pow2_adds(23, 138);
                    assert(0x80_0000 * p >= 0x80_0000 * pow2(138)) by (nonlinear_arith)
                        requires
                            p >= pow2(138),
                    ;
                    assert(false);
                }
            }
            if k < 137 {
                lemma_pow2_strictly_increases(k, 137);
            }
            // d * 2^137 <= 2^13 * u * 2^137 == 2 * u * u
            lemma_pow2_adds(12, 137);
            let s: nat = pow2(137);
            lemma_pow2_pos(137);
            assert(d * p <= 2 * (u * u)) by (nonlinear_arith)
                requires
                    p <= s,
                    p > 0,
                    d == b * u,
                    b <= 0x2000,
                    u == 0x1000 * s,
                    u > 0,
            ;
            if b < 0x2000 {
                assert(d * p < 2 * (u * u)) by (nonlinear_arith)
                    requires
                        p <= s,
                        p > 0,
                        d == b * u,
                        b < 0x2000,
                        u == 0x1000 * s,
                        u > 0,
                ;
            }
            assert(m * d < zc * d);
            assert(m < zc) by (nonlinear_arith)
                requires
                    m * d < zc * d,
                    d > 0,
            ;
        }
    } else {
        // A negative quotient, not rounded to zero.
        assert(c * b >= 0) by (nonlinear_arith)
            requires
                c >= 0,
                b > 0,
        ;
        let one: nat = lemma_power_on_grid(100);
        lemma_round_exact(one, d);
        assert(pow2(100) * d <= n) by {
            lemma_pow2_adds(100, 49);
            lemma_pow2_pos(100);
            vstd::arithmetic::power2::lemma2_to64_rest();
            assert(d <= 0x2000 * u) by (nonlinear_arith)
                requires
                    d == b * u,
                    b <= 0x2000,
            ;
            assert(pow2(100) * d <= pow2(100) * (0x2000 * u)) by (nonlinear_arith)
                requires
                    d <= 0x2000 * u,
            ;
            assert(pow2(100) * (0x2000 * u) == (0x2000 * pow2(100)) * u) by (nonlinear_arith);
            assert(0x2000 * pow2(100) <= u);
            assert((0x2000 * pow2(100)) * u <= u * u) by (nonlinear_arith)
                requires
                    0x2000 * pow2(100) <= u,
            ;
            assert(u * u <= (sa * u) * u) by (nonlinear_arith)
                requires
                    sa >= 1,
            ;
        }
        assert((pow2(100) * d) * d <= n * d) by (nonlinear_arith)
            requires
                pow2(100) * d <= n,
        ;
        lemma_round_monotone(pow2(100) * d, d, n, d);
        lemma_pow2_pos(100);
        if one < r {
            lemma_magnitude_monotone(one, r);
        }
        assert(m > 0);
        assert(z.units() >= 0) by (nonlinear_arith)
            requires
                z.units() == c * u,
                c >= 0,
        ;
    }
}

/// A quotient of a number that is at least `c * b` by `b` is at least `c`.
pub proof fn lemma_quotient_at_least(x: Single, y: Single, b: int, z: Single, c: int)
    requires
        x.is_finite(),
        !x.negative(),
        is_whole(y, b),
        is_whole(z, c),
        b > 0,
        c >= 0,
        x.units() >= (c * b) * pow2(149),
    ensures
        !fdiv(x, y).is_nan(),
        fle(z, fdiv(x, y)),
{
    reveal(fdiv);
    let u: nat = pow2(149);
    lemma_pow2_pos(149);
    lemma_whole_size(y, b);
    lemma_whole_size(z, c);
    let n: nat = magnitude(x.unsigned()) * u;
    let d: nat = (b as nat) * u;
    let r: nat = round_bits(n, d);
    let m: nat = (c as nat) * u;
    assert(d > 0) by (nonlinear_arith)
        requires
            d == b * u,
            b > 0,
            u > 0,
    ;
    lemma_signed(false, r);
    lemma_round_exact(z.unsigned(), d);
    assert(m * d <= n) by (nonlinear_arith)
        requires
            m == c * u,
            d == b * u,
            n == magnitude(x.unsigned()) * u,
            magnitude(x.unsigned()) >= (c * b) * u,
    ;
    assert((m * d) * d <= n * d) by (nonlinear_arith)
        requires
            m * d <= n,
    ;
    lemma_round_monotone(m * d, d, n, d);
}

/// A quotient of a number that is at most -1 by one between zero and `2^e` is below
/// zero.
pub proof fn lemma_quotient_negative(x: Single, y: Single, e: nat)
    requires
        x.is_finite(),
        x.units() <= -pow2(149),
        bounded(y, e),
        y.units() > 0,
        e <= 100,
    ensures
        flt(fdiv(x, y), zero()),
{
    reveal(fdiv);
    let u: nat = pow2(149);
    lemma_pow2_pos(149);
    lemma_magnitude_zero();
    let n: nat = magnitude(x.unsigned()) * u;
    let d: nat = magnitude(y.unsigned());
    let r: nat = round_bits(n, d);
    lemma_signed(true, r);
    let k: nat = (149 - e) as nat;
    lemma_pow2_adds(k, 149 + e);
    lemma_pow2_adds(149, 149);
    lemma_pow2_pos(k);
    assert(pow2(k) * d <= pow2(k) * pow2(149 + e)) by (nonlinear_arith)
        requires
            d <= pow2(149 + e),
    ;
    assert(u * u <= n) by (nonlinear_arith)
        requires
            n == magnitude(x.unsigned()) * u,
            magnitude(x.unsigned()) >= u,
    ;
    lemma_round_at_least_power(n, d, k);
}

/// What is at least `2^e` units rounds to at least `2^e` units.
pub proof fn lemma_round_at_least_power(n: nat, d: nat, e: nat)
    requires
        d > 0,
        e <= 253,
        n >= pow2(e) * d,
    ensures
        magnitude(round_bits(n, d)) >= pow2(e),
{
    let b: nat = lemma_power_on_grid(e);
    lemma_round_exact(b, d);
    assert((pow2(e) * d) * d <= n * d) by (nonlinear_arith)
        requires
            n >= pow2(e) * d,
    ;
    lemma_round_monotone(pow2(e) * d, d, n, d);
    if b < round_bits(n, d) {
        lemma_magnitude_monotone(b, round_bits(n, d));
    }
}

/// A whole number moved down to one on the grid: itself up to 2^24, else a multiple of
/// four.
pub open spec fn grid_below(v: int) -> int {
    if v <= 0x100_0000 {
        v
    } else {
        v - v % 4
    }
}

/// What is at least a whole number rounds to at least the number below it on the grid.
pub proof fn lemma_round_at_least(n: nat, v: int)
    requires
        0 <= v < 0x400_0000,
        n >= v * pow2(149),
    ensures
        magnitude(round_bits(n, 1)) >= grid_below(v) * pow2(149),
        round_bits(n, 1) <= INFINITY_BITS,
{
    let u: nat = pow2(149);
    let g: nat = grid_below(v) as nat;
    lemma_pow2_pos(149);
    assert(g * u <= v * u) by (nonlinear_arith)
        requires
            g <= v,
    ;
    let b: nat = if g <= 0x100_0000 {
        lemma_round_whole(g, g * u, 1);
        round_bits(g * u, 1)
    } else {
        lemma_pow2_unfold(150);
        lemma_pow2_unfold(151);
        let m: nat = g / 4;
        assert(g * u == m * pow2(151)) by (nonlinear_arith)
            requires
                g == 4 * m,
                pow2(151) == 4 * u,
        ;
        lemma_round_on_grid(g * u, 1, m, 151);
        round_bits(g * u, 1)
    };
    lemma_round_monotone(g * u, 1, n, 1);
    if b < round_bits(n, 1) {
        lemma_magnitude_monotone(b, round_bits(n, 1));
    }
}

} // verus!
