//! Finite numbers as reals, and how far the results of operations are from the exact ones.
use crate::reals::{
    lemma_group, lemma_near_product, lemma_over, lemma_part, lemma_real_product, lemma_spread,
    lemma_times, lemma_times_same,
};
use crate::rounding::{
    exponent, lemma_encoding_of_parts, lemma_quantum_fraction, lemma_round_error, magnitude,
    quantum, round_bits, significand, INFINITY_BITS,
};
use crate::single::{
    fadd, fdiv, fle, flt, fmul, fneg, frem, from_int, fsqrt, fsub, lemma_root_floor, nearest_root,
    root_floor, signed, size, to_int, zero, Single,
};
use crate::single_facts::{
    is_whole, lemma_from_int, lemma_magnitude_zero, lemma_opposite, lemma_order,
    lemma_round_at_most_power, lemma_signed, lemma_whole_size,
};
use crate::single_order::{in_unit, lemma_one, lemma_unit_bounded, lemma_zero_magnitude, one};
use crate::single_roots::{lemma_root_digits, lemma_root_encoding};
use vstd::arithmetic::div_mod::{lemma_fundamental_div_mod, lemma_mod_bound};
use vstd::arithmetic::power2::{
    lemma2_to64, lemma_pow2_adds, lemma_pow2_pos, lemma_pow2_strictly_increases, lemma_pow2_unfold,
    pow2,
};
use vstd::prelude::*;

verus! {

/// The value of a finite number.
pub open spec fn value(x: Single) -> real {
    x.units() as real / pow2(149) as real
}

/// `a` is at most `e` away from `b`.
pub open spec fn near(a: real, b: real, e: real) -> bool {
    b - e <= a <= b + e
}

/// The largest amount by which rounding changes a number of size `b`: half a step.
pub open spec fn slack(b: real) -> real {
    b / 16777216real
}

/// More than half of the smallest step.
pub open spec fn tiny() -> real {
    1real / 18446744073709551616real
}

/// A size up to which results are certainly finite.
pub open spec fn large() -> real {
    18446744073709551616real
}

/// Units, as a positive real.
proof fn lemma_unit()
    ensures
        pow2(149) as real > 0real,
        pow2(149) as real >= large(),
{
    lemma_pow2_pos(149);
    lemma2_to64();
    lemma_pow2_strictly_increases(64, 149);
}

/// A fraction of units rounds to a number that is near it.
proof fn lemma_rounded(n: nat, d: nat)
    requires
        d > 0,
        round_bits(n, d) < INFINITY_BITS,
    ensures
        ({
            let m: real = magnitude(round_bits(n, d)) as real;
            let exact: real = n as real / d as real;
            &&& 0real <= exact
            &&& near(m, exact, slack(exact) + 1real / 2real)
            &&& d == 1 ==> near(m, exact, slack(exact))
        }),
{
    let k: nat = quantum(n / d);
    let p: nat = pow2(k);
    let m: nat = magnitude(round_bits(n, d));
    lemma_round_error(n, d);
    lemma_quantum_fraction(n, d);
    lemma_pow2_pos(k);
    let a: real = n as real;
    let b: real = d as real;
    let v: real = m as real;
    let q: real = (d * p) as real;
    lemma_real_product(m as int, d as int);
    let x: real = a / b;
    lemma_over(a, b);
    lemma_times(0real, x, b);
    assert(2real * (v * b) <= 2real * a + q);
    assert(2real * a <= 2real * (v * b) + q);
    if k > 0 {
        assert(a >= 8388608real * q);
        lemma_part(x, b);
        lemma_spread(x, x / 16777216real, b);
        lemma_times(v, x + x / 16777216real, b);
        lemma_times(x - x / 16777216real, v, b);
    } else {
        lemma2_to64();
        assert(d * p == d) by (nonlinear_arith)
            requires
                p == 1,
        ;
        lemma_spread(x, 1real / 2real, b);
        lemma_times(v, x + 1real / 2real, b);
        lemma_times(x - 1real / 2real, v, b);
        assert((1real / 2real) * b == b / 2real) by (nonlinear_arith);
        if d == 1 {
            assert(m == n);
            assert(x == a);
        }
    }
}

/// Results up to a size are finite.
proof fn lemma_not_too_large(n: nat, d: nat)
    requires
        d > 0,
        n as real <= (large() * pow2(149) as real) * d as real,
    ensures
        round_bits(n, d) < INFINITY_BITS,
{
    lemma2_to64();
    lemma_pow2_adds(64, 149);
    lemma_real_product(pow2(64) as int, pow2(149) as int);
    lemma_real_product(pow2(213) as int, d as int);
    lemma_round_at_most_power(n, d, 213);
}

/// The value of a number in units.
proof fn lemma_value_units(x: Single)
    ensures
        value(x) * pow2(149) as real == x.units() as real,
{
    lemma_unit();
    lemma_over(x.units() as real, pow2(149) as real);
}

/// The order of numbers is that of their values.
pub proof fn lemma_value_order(x: Single, y: Single)
    requires
        x.is_finite(),
        y.is_finite(),
    ensures
        flt(x, y) <==> value(x) < value(y),
        fle(x, y) <==> value(x) <= value(y),
{
    lemma_order(x, y);
    lemma_unit();
    lemma_value_units(x);
    lemma_value_units(y);
    lemma_times(value(x), value(y), pow2(149) as real);
}

/// The value of a whole number.
pub proof fn lemma_value_whole(x: Single, v: int)
    requires
        is_whole(x, v),
    ensures
        value(x) == v as real,
{
    lemma_unit();
    lemma_value_units(x);
    lemma_real_product(v, pow2(149) as int);
    lemma_times(value(x), v as real, pow2(149) as real);
}

/// The value of the opposite number.
pub proof fn lemma_value_opposite(x: Single)
    requires
        x.is_finite(),
    ensures
        fneg(x).is_finite(),
        value(fneg(x)) == -value(x),
{
    let u: real = pow2(149) as real;
    lemma_opposite(x);
    lemma_value_units(x);
    lemma_value_units(fneg(x));
    lemma_unit();
    lemma_spread(value(x), 0real, u);
    lemma_times(value(fneg(x)), -value(x), u);
}

/// The value of a number by its encoding, as a fraction with the denominator `2^k`.
pub proof fn lemma_value_bits(x: Single, k: nat)
    requires
        !x.negative(),
        k <= 149,
        exponent(x.unsigned()) == 149 - k,
    ensures
        value(x) * pow2(k) as real == significand(x.unsigned()) as real,
{
    let j: nat = (149 - k) as nat;
    lemma_pow2_adds(j, k);
    lemma_pow2_pos(j);
    let s: real = significand(x.unsigned()) as real;
    let p: real = pow2(j) as real;
    let q: real = pow2(k) as real;
    lemma_real_product(significand(x.unsigned()) as int, pow2(j) as int);
    lemma_real_product(pow2(j) as int, pow2(k) as int);
    lemma_value_units(x);
    lemma_group(value(x), p, q);
    lemma_times(value(x) * q, s, p);
}

/// What a signed rounding of `n / d` units is, as a value.
proof fn lemma_signed_value(neg: bool, n: nat, d: nat, r: Single, exact: real, b: real)
    requires
        d > 0,
        r == signed(neg, round_bits(n, d)),
        n as real / d as real == (if neg {
            (-exact) * pow2(149) as real
        } else {
            exact * pow2(149) as real
        }),
        -b <= exact <= b,
        b <= large(),
    ensures
        r.is_finite(),
        near(value(r), exact, slack(b) + tiny()),
        d == 1 ==> near(value(r), exact, slack(b)),
        d == 1 && exact >= 0real ==> near(value(r), exact, slack(exact)),
        exact >= 0real ==> near(value(r), exact, slack(exact) + tiny()),
        r.negative() == neg,
{
    let u: real = pow2(149) as real;
    lemma_unit();
    let q: real = n as real / d as real;
    let s: real = if neg {
        -exact
    } else {
        exact
    };
    assert(q == s * u);
    lemma_over(n as real, d as real);
    lemma_times(s, large(), u);
    lemma_times(q, large() * u, d as real);
    lemma_not_too_large(n, d);
    lemma_rounded(n, d);
    lemma_signed(neg, round_bits(n, d));
    lemma_value_units(r);
    let m: real = magnitude(round_bits(n, d)) as real;
    let w: real = if neg {
        -value(r)
    } else {
        value(r)
    };
    lemma_spread(value(r), 0real, u);
    assert(w * u == m);
    lemma_part(s, u);
    assert(tiny() * u >= 1real) by {
        lemma_times(large(), u, tiny());
        lemma_spread(tiny(), 0real, u);
    }
    lemma_spread(s, slack(s), u);
    lemma_spread(s + slack(s), tiny(), u);
    lemma_spread(s - slack(s), tiny(), u);
    lemma_times(w, s + slack(s) + tiny(), u);
    lemma_times(s - slack(s) - tiny(), w, u);
    lemma_times(w, s + slack(s), u);
    lemma_times(s - slack(s), w, u);
    lemma_times(0real, s, u);
}

/// The size of a number, as a real.
proof fn lemma_size(x: Single) -> (s: real)
    ensures
        s == (if x.negative() {
            -value(x)
        } else {
            value(x)
        }),
        magnitude(x.unsigned()) as real == s * pow2(149) as real,
        s >= 0real,
{
    let u: real = pow2(149) as real;
    lemma_value_units(x);
    lemma_unit();
    lemma_spread(value(x), 0real, u);
    let s: real = if x.negative() {
        -value(x)
    } else {
        value(x)
    };
    lemma_times(0real, s, u);
    s
}

/// A sum is within a part of the exact one.
pub proof fn lemma_sum(x: Single, y: Single, b: real)
    requires
        x.is_finite(),
        y.is_finite(),
        -b <= value(x) + value(y) <= b,
        b <= large(),
    ensures
        fadd(x, y).is_finite(),
        near(value(fadd(x, y)), value(x) + value(y), slack(b)),
{
    reveal(fadd);
    let v: int = x.units() + y.units();
    let u: real = pow2(149) as real;
    lemma_value_units(x);
    lemma_value_units(y);
    lemma_spread(value(x), value(y), u);
    lemma_spread(value(x) + value(y), 0real, u);
    let neg = if v == 0 {
        x.negative() && y.negative()
    } else {
        v < 0
    };
    let n: nat = size(v);
    lemma_unit();
    assert(n as real / 1real == n as real);
    lemma_signed_value(neg, n, 1, fadd(x, y), value(x) + value(y), b);
}

/// A difference is within a part of the exact one.
pub proof fn lemma_difference(x: Single, y: Single, b: real)
    requires
        x.is_finite(),
        y.is_finite(),
        -b <= value(x) - value(y) <= b,
        b <= large(),
    ensures
        fsub(x, y).is_finite(),
        near(value(fsub(x, y)), value(x) - value(y), slack(b)),
{
    lemma_value_opposite(y);
    lemma_sum(x, fneg(y), b);
}

/// A product is within a part of the exact one.
pub proof fn lemma_product(x: Single, y: Single, b: real)
    requires
        x.is_finite(),
        y.is_finite(),
        -b <= value(x) * value(y) <= b,
        b <= large(),
    ensures
        fmul(x, y).is_finite(),
        near(value(fmul(x, y)), value(x) * value(y), slack(b) + tiny()),
        value(x) * value(y) >= 0real ==> near(
            value(fmul(x, y)),
            value(x) * value(y),
            slack(value(x) * value(y)) + tiny(),
        ),
        fmul(x, y).negative() == (x.negative() != y.negative()),
{
    reveal(fmul);
    let p: nat = magnitude(x.unsigned());
    let q: nat = magnitude(y.unsigned());
    let t: nat = pow2(149);
    let u: real = t as real;
    lemma_unit();
    let a: real = lemma_size(x);
    let c: real = lemma_size(y);
    let n: nat = p * q;
    let neg = x.negative() != y.negative();
    lemma_real_product(p as int, q as int);
    // n is a * c * u * u.
    lemma_group(a, u, c * u);
    lemma_group(u, c, u);
    lemma_spread(u, 0real, c * u);
    lemma_group(a, c, u);
    lemma_group(a, c * u, u);
    assert(n as real == ((a * c) * u) * u);
    lemma_over(n as real, u);
    lemma_times(n as real / u, (a * c) * u, u);
    lemma_spread(value(x), 0real, value(y));
    lemma_spread(-value(x), 0real, value(y));
    assert((-value(x)) * (-value(y)) == value(x) * value(y)) by (nonlinear_arith);
    lemma_signed_value(neg, n, t, fmul(x, y), value(x) * value(y), b);
}

/// A quotient is within a part of the exact one.
pub proof fn lemma_quotient(x: Single, y: Single, b: real)
    requires
        x.is_finite(),
        y.is_finite(),
        !y.is_zero(),
        -b <= value(x) / value(y) <= b,
        b <= large(),
    ensures
        value(y) != 0real,
        fdiv(x, y).is_finite(),
        near(value(fdiv(x, y)), value(x) / value(y), slack(b) + tiny()),
        value(x) / value(y) >= 0real ==> near(
            value(fdiv(x, y)),
            value(x) / value(y),
            slack(value(x) / value(y)) + tiny(),
        ),
        fdiv(x, y).negative() == (x.negative() != y.negative()),
{
    reveal(fdiv);
    let p: nat = magnitude(x.unsigned());
    let q: nat = magnitude(y.unsigned());
    let t: nat = pow2(149);
    let u: real = t as real;
    lemma_unit();
    lemma_zero_magnitude(y);
    let a: real = lemma_size(x);
    let c: real = lemma_size(y);
    lemma_spread(0real, 0real, u);
    assert(c != 0real);
    let n: nat = p * t;
    let neg = x.negative() != y.negative();
    lemma_real_product(p as int, t as int);
    let e: real = value(x) / value(y);
    lemma_over(value(x), value(y));
    let w: real = if neg {
        -e
    } else {
        e
    };
    // w * c == a.
    lemma_spread(e, 0real, value(y));
    lemma_spread(e, 0real, -value(y));
    lemma_spread(-e, 0real, value(y));
    assert((-e) * (-value(y)) == e * value(y)) by (nonlinear_arith);
    assert(w * c == a);
    // n / q == w * u.
    lemma_group(w, u, c * u);
    lemma_group(w, c, u);
    lemma_group(w, c * u, u);
    lemma_spread(u, 0real, c * u);
    assert((w * u) * q as real == n as real) by {
        assert(n as real == (a * u) * u);
        assert((w * c) * u == w * (c * u));
    }
    lemma_over(n as real, q as real);
    lemma_times(n as real / q as real, w * u, q as real);
    lemma_signed_value(neg, n, q, fdiv(x, y), e, b);
}

/// A whole number rounds to one within a part of it.
pub proof fn lemma_from_int_value(v: int)
    requires
        0 <= v <= 0x1_0000_0000_0000_0000,
    ensures
        from_int(v).is_finite(),
        !from_int(v).negative(),
        near(value(from_int(v)), v as real, slack(v as real)),
        v > 0 ==> !from_int(v).is_zero() && value(from_int(v)) > 0real,
        v <= 0x100_0000 ==> value(from_int(v)) == v as real,
{
    reveal(from_int);
    let n: nat = size(v) * pow2(149);
    lemma_real_product(v, pow2(149) as int);
    assert(n as real / 1real == n as real);
    lemma_signed_value(v < 0, n, 1, from_int(v), v as real, v as real);
    if v <= 0x100_0000 {
        lemma_from_int(v);
        lemma_value_whole(from_int(v), v);
    }
    if v > 0 && from_int(v).is_zero() {
        lemma_magnitude_zero();
        lemma_unit();
        lemma_value_units(from_int(v));
        lemma_spread(0real, 0real, pow2(149) as real);
        lemma_times(value(from_int(v)), 0real, pow2(149) as real);
    }
}

/// The ratio of two whole numbers, each of them rounded.
pub proof fn lemma_ratio(a: int, b: int)
    requires
        0 <= a <= b,
        0 < b <= 0x1_0000_0000,
    ensures
        near(value(fdiv(from_int(a), from_int(b))), a as real / b as real, 1real / 2097152real),
        a <= 0x100_0000 && b <= 0x100_0000 ==> near(
            value(fdiv(from_int(a), from_int(b))),
            a as real / b as real,
            1real / 8388608real,
        ),
{
    let x = from_int(a);
    let y = from_int(b);
    lemma_from_int_value(a);
    lemma_from_int_value(b);
    let ar: real = a as real;
    let br: real = b as real;
    let p: real = value(x);
    let q: real = value(y);
    let exact: real = ar / br;
    let e: real = p / q;
    lemma_over(ar, br);
    lemma_over(p, q);
    lemma_times(0real, exact, br);
    lemma_times(exact, 1real, br);
    // p is a within a part, q is b within a part.
    if b <= 0x100_0000 {
        assert(p == ar && q == br);
        assert(e == exact);
    } else {
        // With q at least b less a part, and p at most a and a part.
        lemma_spread(e, exact, q);
        lemma_group(exact, br, 1real);
        let c: real = 1real / 4194304real;
        let w: real = exact * q;
        lemma_times_same(br - slack(br), q, exact);
        lemma_times_same(q, br + slack(br), exact);
        lemma_spread(br, slack(br), exact);
        lemma_part(br, exact);
        assert(near(w, ar, slack(ar)));
        assert(near(p, w, ar / 8388608real));
        assert(slack(br) * 4real <= q);
        lemma_times(e - exact, c, q);
        lemma_times(-c, e - exact, q);
        lemma_spread(c, 0real, q);
        assert(c * q == q / 4194304real) by (nonlinear_arith)
            requires
                c == 1real / 4194304real,
        ;
        assert(near(e, exact, c));
    }
    lemma_times(0real, e, q);
    lemma_quotient(x, y, 2real);
}

/// The whole part of a number that is not negative.
pub proof fn lemma_to_int_value(x: Single, lo: int, hi: int)
    requires
        x.is_finite(),
        value(x) >= 0real,
        lo <= 0,
        value(x) < hi as real + 1real,
    ensures
        ({
            let t: int = to_int(x, lo, hi);
            &&& 0 <= t <= hi
            &&& t as real <= value(x)
            &&& value(x) < t as real + 1real
        }),
{
    reveal(to_int);
    let u: int = pow2(149) as int;
    let ur: real = pow2(149) as real;
    let m: int = magnitude(x.unsigned()) as int;
    lemma_unit();
    let v: real = lemma_size(x);
    lemma_fundamental_div_mod(m, u);
    lemma_mod_bound(m, u);
    let w: int = m / u;
    assert(u * w == w * u) by (nonlinear_arith);
    lemma_real_product(w, u);
    lemma_spread(w as real, 1real, ur);
    lemma_times(w as real, v, ur);
    lemma_times(v, w as real + 1real, ur);
    if x.negative() {
        assert(v == 0real);
    }
}

/// The rounded root of `s`, in steps of `g`, is within half a step.
proof fn lemma_root_within(s: nat, g: nat)
    requires
        g > 0,
        nearest_root(s, g) >= 2,
    ensures
        ({
            let a: int = (nearest_root(s, g) * g) as int;
            (2 * a - g) * (2 * a - g) <= 4 * s && 4 * s <= (2 * a + g) * (2 * a + g)
        }),
{
    let gg: nat = g * g;
    assert(gg > 0) by (nonlinear_arith)
        requires
            gg == g * g,
            g > 0,
    ;
    let q: nat = s / gg;
    let f: nat = root_floor(q);
    let m: nat = nearest_root(s, g);
    lemma_root_floor(q);
    lemma_fundamental_div_mod(s as int, gg as int);
    lemma_mod_bound(s as int, gg as int);
    let ff: int = (f * f) as int;
    assert((f + 1) * (f + 1) == ff + 2 * f + 1) by (nonlinear_arith)
        requires
            ff == f * f,
    ;
    assert(ff * gg <= gg * q) by (nonlinear_arith)
        requires
            ff <= q,
            gg > 0,
    ;
    assert(gg * q + gg <= (ff + 2 * f + 1) * gg) by (nonlinear_arith)
        requires
            q + 1 <= ff + 2 * f + 1,
            gg > 0,
    ;
    assert((2 * f + 1) * (2 * f + 1) == 4 * ff + 4 * f + 1) by (nonlinear_arith)
        requires
            ff == f * f,
    ;
    let fgg: int = (f * gg) as int;
    let ffgg: int = ff * gg;
    assert((4 * ff + 4 * f + 1) * gg == 4 * ffgg + 4 * fgg + gg) by (nonlinear_arith)
        requires
            ffgg == ff * gg,
            fgg == f * gg,
    ;
    assert((ff + 2 * f + 1) * gg == ffgg + 2 * fgg + gg) by (nonlinear_arith)
        requires
            ffgg == ff * gg,
            fgg == f * gg,
    ;
    assert(fgg >= gg) by (nonlinear_arith)
        requires
            fgg == f * gg,
            f >= 1,
            gg > 0,
    ;
    let a: int = (m * g) as int;
    let b: int = (f * g) as int;
    assert(b * b == ffgg && b * g == fgg) by (nonlinear_arith)
        requires
            b == f * g,
            ff == f * f,
            gg == g * g,
            ffgg == ff * gg,
            fgg == f * gg,
    ;
    if m == f {
        assert((2 * a - g) * (2 * a - g) == 4 * (a * a) - 4 * (a * g) + gg) by (nonlinear_arith)
            requires
                gg == g * g,
        ;
        assert((2 * a + g) * (2 * a + g) == 4 * (a * a) + 4 * (a * g) + gg) by (nonlinear_arith)
            requires
                gg == g * g,
        ;
    } else {
        assert(a == b + g) by (nonlinear_arith)
            requires
                a == (f + 1) * g,
                b == f * g,
        ;
        assert((2 * a - g) * (2 * a - g) == 4 * (b * b) + 4 * (b * g) + gg) by (nonlinear_arith)
            requires
                gg == g * g,
                a == b + g,
        ;
        assert((2 * a + g) * (2 * a + g) == 4 * (b * b) + 12 * (b * g) + 9 * gg)
            by (nonlinear_arith)
            requires
                gg == g * g,
                a == b + g,
        ;
    }
}

/// The square of a root is within a part of the number.
pub proof fn lemma_root(x: Single)
    requires
        x.is_finite(),
        !x.negative(),
        !x.is_zero(),
        fsqrt(x).is_finite(),
    ensures
        ({
            let r: real = value(fsqrt(x));
            &&& r >= 0real
            &&& !fsqrt(x).negative()
            &&& near(value(x), r * r, (r * r) / 4194304real)
        }),
{
    let t: nat = pow2(149);
    let u: real = t as real;
    let w: nat = magnitude(x.unsigned());
    let s: nat = w * t;
    let k: nat = quantum(root_floor(s));
    let g: nat = pow2(k);
    let m: nat = nearest_root(s, g);
    lemma_unit();
    lemma_pow2_pos(k);
    lemma_zero_magnitude(x);
    lemma_root_encoding(x);
    lemma_root_digits(s);
    lemma_root_floor(s);
    assert(k > 0) by {
        let f: nat = root_floor(s);
        lemma2_to64();
        assert(s >= t) by (nonlinear_arith)
            requires
                s == w * t,
                w >= 1,
        ;
        lemma_pow2_strictly_increases(48, 149);
        if f < 0x100_0000 {
            assert((f + 1) * (f + 1) <= 0x100_0000 * 0x100_0000) by (nonlinear_arith)
                requires
                    f + 1 <= 0x100_0000,
            ;
        }
    }
    lemma_root_within(s, g);
    let a: int = (m * g) as int;
    let b: nat = k * 0x80_0000 + m;
    assert(fsqrt(x).unsigned() == b);
    assert(magnitude(b) == a) by {
        if m < 0x100_0000 {
            lemma_encoding_of_parts(k, m);
            assert(magnitude(b) == m * g);
        } else {
            lemma_encoding_of_parts(k + 1, 0x80_0000);
            lemma_pow2_unfold(k + 1);
            assert(m == 0x100_0000);
            assert(a == 0x100_0000 * g) by (nonlinear_arith)
                requires
                    a == m * g,
                    m == 0x100_0000,
            ;
            assert(b == (k + 1) * 0x80_0000 + 0x80_0000);
            assert(magnitude(b) == 0x80_0000 * pow2(k + 1));
            assert(0x80_0000 * pow2(k + 1) == 0x100_0000 * g) by (nonlinear_arith)
                requires
                    pow2(k + 1) == 2 * g,
            ;
        }
    }
    let r: real = lemma_size(fsqrt(x));
    let v: real = lemma_size(x);
    let ar: real = a as real;
    let gr: real = g as real;
    assert(ar >= 8388608real * gr) by {
        assert(a >= 0x80_0000 * g) by (nonlinear_arith)
            requires
                a == m * g,
                m >= 0x80_0000,
        ;
    }
    // As reals: the square of a is within a part of s.
    let aa: real = ar * ar;
    let ag: real = ar * gr;
    let gg: real = gr * gr;
    lemma_real_product(2 * a - g, 2 * a - g);
    lemma_real_product(2 * a + g, 2 * a + g);
    assert((2real * ar - gr) * (2real * ar - gr) == 4real * aa - 4real * ag + gg)
        by (nonlinear_arith)
        requires
            aa == ar * ar,
            ag == ar * gr,
            gg == gr * gr,
    ;
    assert((2real * ar + gr) * (2real * ar + gr) == 4real * aa + 4real * ag + gg)
        by (nonlinear_arith)
        requires
            aa == ar * ar,
            ag == ar * gr,
            gg == gr * gr,
    ;
    lemma_times_same(8388608real * gr, ar, ar);
    lemma_times_same(8388608real * gr, ar, gr);
    lemma_group(8388608real, gr, ar);
    lemma_group(8388608real, gr, gr);
    lemma_spread(gr, 0real, ar);
    assert(aa >= 8388608real * ag && ag >= 8388608real * gg);
    lemma_times_same(0real, gr, gr);
    lemma_spread(0real, 0real, gr);
    let sr: real = s as real;
    assert(near(sr, aa, aa / 4194304real));
    // Both are counted in units squared.
    lemma_real_product(w as int, t as int);
    lemma_group(v, u, u);
    let uu: real = u * u;
    assert(uu > 0real) by {
        lemma_times(0real, u, u);
        lemma_spread(0real, 0real, u);
    }
    assert(sr == v * uu);
    assert(aa == (r * r) * uu) by (nonlinear_arith)
        requires
            aa == ar * ar,
            ar == r * u,
            uu == u * u,
    ;
    let rr: real = r * r;
    assert((rr / 4194304real) * uu == (rr * uu) / 4194304real) by (nonlinear_arith);
    lemma_spread(rr, rr / 4194304real, uu);
    lemma_times(v, rr + rr / 4194304real, uu);
    lemma_times(rr - rr / 4194304real, v, uu);
}

/// The values of zero and of numbers from zero to one.
pub proof fn lemma_unit_value(x: Single)
    requires
        in_unit(x),
    ensures
        x.is_finite(),
        0real <= value(x) <= 1real,
        value(zero()) == 0real,
        value(one()) == 1real,
        one().is_finite(),
{
    lemma_one();
    lemma_unit_bounded(x);
    lemma_magnitude_zero();
    assert(is_whole(zero(), 0)) by {
        assert(0 * pow2(149) == 0) by (nonlinear_arith);
    }
    lemma_value_whole(zero(), 0);
    lemma_value_whole(one(), 1);
    lemma_value_order(zero(), x);
    lemma_value_order(x, one());
}

/// What is on a line from `a + b` at zero down to `b` at one, up to rounding.
pub proof fn lemma_line(x: Single, span: Single, least: Single, a: real, b: real)
    requires
        in_unit(x),
        span.is_finite(),
        least.is_finite(),
        0real <= a <= 5real,
        0real <= b <= 1real,
        near(value(span), a, 1real / 4000000real),
        near(value(least), b, 1real / 4000000real),
    ensures
        fadd(fmul(fsub(one(), x), span), least).is_finite(),
        near(
            value(fadd(fmul(fsub(one(), x), span), least)),
            (1real - value(x)) * a + b,
            1real / 500000real,
        ),
{
    let rest = fsub(one(), x);
    lemma_unit_value(x);
    lemma_difference(one(), x, 1real);
    let r: real = value(rest);
    let exact: real = 1real - value(x);
    let v: real = value(span);
    // r * v is exact * a, up to the errors of both.
    lemma_spread(r, exact, v);
    lemma_times_same(r - exact, slack(1real), v + 1real / 4000000real);
    lemma_times_same(-slack(1real), r - exact, v + 1real / 4000000real);
    lemma_spread(r - exact, 0real, v + 1real / 4000000real);
    lemma_spread(v, 1real / 4000000real, r - exact);
    lemma_spread(v, a, exact);
    lemma_times_same(v - a, 1real / 4000000real, exact);
    lemma_times_same(-1real / 4000000real, v - a, exact);
    lemma_times_same(exact, 1real, a);
    lemma_times_same(0real, exact, a);
    lemma_spread(exact, 0real, v);
    lemma_spread(exact, 0real, a);
    lemma_spread(0real, 0real, a);
    assert(near(r * v, exact * a, 1real / 1000000real));
    lemma_product(rest, span, 6real);
    lemma_sum(fmul(rest, span), least, 7real);
}

/// What is left of a number that is not negative after whole multiples of `n`: up to
/// rounding it is the number less so many of them, and less than `n`.
pub proof fn lemma_remainder_value(x: Single, y: Single, n: int) -> (k: int)
    requires
        x.is_finite(),
        !x.negative(),
        is_whole(y, n),
        1 <= n <= 0x100_0000,
    ensures
        k >= 0,
        0real <= value(x) - (k * n) as real,
        n as real > value(x) - (k * n) as real,
        frem(x, y).is_finite(),
        !frem(x, y).negative(),
        near(value(frem(x, y)), value(x) - (k * n) as real, slack(n as real)),
{
    reveal(frem);
    let u: int = pow2(149) as int;
    let ur: real = pow2(149) as real;
    let a: int = magnitude(x.unsigned()) as int;
    let b: int = magnitude(y.unsigned()) as int;
    lemma_unit();
    lemma_whole_size(y, n);
    assert(b == n * u);
    assert(b > 0) by (nonlinear_arith)
        requires
            b == n * u,
            n >= 1,
            u > 0,
    ;
    lemma_fundamental_div_mod(a, b);
    lemma_mod_bound(a, b);
    let k: int = a / b;
    let r: int = a % b;
    assert(k >= 0) by (nonlinear_arith)
        requires
            a == b * k + r,
            0 <= r < b,
            a >= 0,
    ;
    let v: real = lemma_size(x);
    let exact: real = v - (k * n) as real;
    assert(b * k == (k * n) * u) by (nonlinear_arith)
        requires
            b == n * u,
    ;
    lemma_real_product(k * n, u);
    lemma_real_product(n, u);
    lemma_spread(v, (k * n) as real, ur);
    assert(exact * ur == r as real);
    lemma_times(0real, exact, ur);
    lemma_spread(0real, 0real, ur);
    lemma_times(exact, n as real, ur);
    assert(r as real / 1real == r as real);
    lemma_signed_value(x.negative(), r as nat, 1, frem(x, y), exact, n as real);
    k
}

/// What is no whole number of a range: a number below zero loses its fraction towards zero,
/// what is beyond the range becomes its end, and what is not a number becomes zero.
pub proof fn lemma_to_int_limits(x: Single, lo: int, hi: int)
    requires
        lo <= 0 <= hi,
    ensures
        lo <= to_int(x, lo, hi) <= hi,
        x.is_nan() ==> to_int(x, lo, hi) == 0,
        x.is_infinite() ==> to_int(x, lo, hi) == (if x.negative() {
            lo
        } else {
            hi
        }),
        x.is_finite() && value(x) >= hi as real ==> to_int(x, lo, hi) == hi,
        x.is_finite() && value(x) <= lo as real ==> to_int(x, lo, hi) == lo,
        x.is_finite() && lo as real <= value(x) <= 0real ==> {
            let t: int = to_int(x, lo, hi);
            t as real >= value(x) && t as real - 1real < value(x) && t <= 0
        },
{
    reveal(to_int);
    if x.is_finite() {
        let u: int = pow2(149) as int;
        let ur: real = pow2(149) as real;
        let m: int = magnitude(x.unsigned()) as int;
        lemma_unit();
        let v: real = lemma_size(x);
        lemma_fundamental_div_mod(m, u);
        lemma_mod_bound(m, u);
        let w: int = m / u;
        assert(u * w == w * u) by (nonlinear_arith);
        lemma_real_product(w, u);
        lemma_spread(w as real, 1real, ur);
        lemma_times(w as real, v, ur);
        lemma_times(v, w as real + 1real, ur);
    }
}

/// A line as in [`lemma_line`], also beyond zero and one.
pub proof fn lemma_long_line(x: Single, span: Single, least: Single, a: real, b: real)
    requires
        x.is_finite(),
        -100real <= value(x) <= 100real,
        span.is_finite(),
        least.is_finite(),
        0real <= a <= 5real,
        0real <= b <= 1real,
        near(value(span), a, 1real / 4000000real),
        near(value(least), b, 1real / 4000000real),
    ensures
        fadd(fmul(fsub(one(), x), span), least).is_finite(),
        near(
            value(fadd(fmul(fsub(one(), x), span), least)),
            (1real - value(x)) * a + b,
            1real / 4000real,
        ),
{
    let rest = fsub(one(), x);
    lemma_unit_value(one());
    lemma_difference(one(), x, 101real);
    let r: real = value(rest);
    let e: real = 1real - value(x);
    let v: real = value(span);
    let d: real = 1real / 4000000real;
    // Both moved up, so that nothing is negative: r + 101 and v + 1.
    lemma_near_product(
        r + 101real,
        e + 101real,
        slack(101real),
        v + 1real,
        a + 1real,
        d,
        202real,
        7real,
    );
    lemma_spread(r, 101real, v + 1real);
    lemma_spread(e, 101real, a + 1real);
    lemma_spread(v, 1real, r);
    lemma_spread(a, 1real, e);
    lemma_spread(r, 0real, v);
    lemma_spread(e, 0real, a);
    lemma_spread(r, 0real, v + 1real);
    lemma_spread(e, 0real, a + 1real);
    assert(near(r * v, e * a, 1real / 8000real));
    lemma_times_same(e + 101real, 202real, a);
    lemma_times_same(0real, e + 101real, a);
    lemma_spread(e, 101real, a);
    lemma_spread(0real, 0real, a);
    lemma_product(rest, span, 1010real);
    lemma_sum(fmul(rest, span), least, 1012real);
}

} // verus!
