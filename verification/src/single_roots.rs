//! How square roots of [`Single`] follow the order of numbers.
use crate::rounding::{
    lemma_quantum, lemma_quantum_monotone, lemma_quantum_unique, magnitude, quantum, INFINITY_BITS,
};
use crate::single::{
    fle, fsqrt, lemma_root_floor, lemma_root_floor_unique, nearest_root, root_floor, zero, Single,
};
use crate::single_facts::{bounded, lemma_order};
use crate::single_order::{lemma_bounded_bits, lemma_one, lemma_zero_magnitude, one};
use vstd::arithmetic::div_mod::{
    lemma_div_is_ordered, lemma_div_pos_is_pos, lemma_fundamental_div_mod,
};
use vstd::arithmetic::power2::{
    lemma2_to64, lemma2_to64_rest, lemma_pow2_adds, lemma_pow2_pos, lemma_pow2_strictly_increases,
    pow2,
};
use vstd::prelude::*;

verus! {

/// The encoding of the root of `s` square units.
pub open spec fn root_bits(s: nat) -> nat {
    let k: nat = quantum(root_floor(s));
    k * 0x80_0000 + nearest_root(s, pow2(k))
}

proof fn lemma_root_floor_monotone(s: nat, t: nat)
    requires
        s <= t,
    ensures
        root_floor(s) <= root_floor(t),
{
    lemma_root_floor(s);
    lemma_root_floor(t);
    let a: nat = root_floor(s);
    let b: nat = root_floor(t);
    if a > b {
        assert((b + 1) * (b + 1) <= a * a) by (nonlinear_arith)
            requires
                b + 1 <= a,
        ;
    }
}

/// A root that is counted in steps of `g`.
proof fn lemma_scaled_root(s: nat, g: nat, c: nat)
    requires
        g > 0,
    ensures
        root_floor(s) < c * g ==> root_floor(s / (g * g)) < c,
        root_floor(s) >= c * g ==> root_floor(s / (g * g)) >= c,
{
    let r: nat = root_floor(s);
    let q: nat = s / (g * g);
    let f: nat = root_floor(q);
    lemma_root_floor(s);
    lemma_root_floor(q);
    let gg: nat = g * g;
    assert(gg > 0) by (nonlinear_arith)
        requires
            gg == g * g,
            g > 0,
    ;
    lemma_fundamental_div_mod(s as int, gg as int);
    assert(gg * q <= s && s < gg * (q + 1)) by (nonlinear_arith)
        requires
            s == gg * q + s % gg,
            0 <= s % gg < gg,
    ;
    if r < c * g && f >= c {
        // Then c * c * g * g <= q * g * g <= s < (r + 1)^2 <= (c * g)^2.
        assert(c * c <= f * f) by (nonlinear_arith)
            requires
                c <= f,
        ;
        assert((c * c) * gg <= gg * q) by (nonlinear_arith)
            requires
                c * c <= q,
        ;
        assert((r + 1) * (r + 1) <= (c * g) * (c * g)) by (nonlinear_arith)
            requires
                r + 1 <= c * g,
        ;
        assert((c * g) * (c * g) == (c * c) * gg) by (nonlinear_arith)
            requires
                gg == g * g,
        ;
    }
    if r >= c * g && f < c {
        // Then s < (q + 1) * g * g <= (f + 1)^2 * g * g <= (c * g)^2 <= r * r <= s.
        assert((f + 1) * (f + 1) <= c * c) by (nonlinear_arith)
            requires
                f + 1 <= c,
        ;
        assert(gg * (q + 1) <= (c * c) * gg) by (nonlinear_arith)
            requires
                q + 1 <= c * c,
        ;
        assert((c * g) * (c * g) <= r * r) by (nonlinear_arith)
            requires
                c * g <= r,
        ;
        assert((c * g) * (c * g) == (c * c) * gg) by (nonlinear_arith)
            requires
                gg == g * g,
        ;
    }
}

/// How large the digits of a rounded root are.
pub proof fn lemma_root_digits(s: nat)
    ensures
        nearest_root(s, pow2(quantum(root_floor(s)))) <= 0x100_0000,
        quantum(root_floor(s)) > 0 ==> nearest_root(s, pow2(quantum(root_floor(s)))) >= 0x80_0000,
{
    let k: nat = quantum(root_floor(s));
    let g: nat = pow2(k);
    lemma_quantum(root_floor(s));
    lemma_pow2_pos(k);
    lemma_scaled_root(s, g, 0x100_0000);
    lemma_scaled_root(s, g, 0x80_0000);
    assert(g * g > 0) by (nonlinear_arith)
        requires
            g > 0,
    ;
    lemma_div_pos_is_pos(s as int, (g * g) as int);
}

proof fn lemma_nearest_root_monotone(s: nat, t: nat, g: nat)
    requires
        s <= t,
        g > 0,
    ensures
        nearest_root(s, g) <= nearest_root(t, g),
{
    let gg: nat = g * g;
    assert(gg > 0) by (nonlinear_arith)
        requires
            gg == g * g,
            g > 0,
    ;
    lemma_div_is_ordered(s as int, t as int, gg as int);
    lemma_root_floor_monotone(s / gg, t / gg);
}

proof fn lemma_root_bits_monotone(s: nat, t: nat)
    requires
        s <= t,
    ensures
        root_bits(s) <= root_bits(t),
{
    let j: nat = quantum(root_floor(s));
    let k: nat = quantum(root_floor(t));
    lemma_root_floor_monotone(s, t);
    lemma_quantum_monotone(root_floor(s), root_floor(t));
    lemma_root_digits(s);
    lemma_root_digits(t);
    if j == k {
        lemma_pow2_pos(k);
        lemma_nearest_root_monotone(s, t, pow2(k));
    }
}

/// The root of a positive number, by its encoding.
pub proof fn lemma_root_encoding(x: Single)
    requires
        x.is_finite(),
        !x.is_zero(),
        !x.negative(),
    ensures
        ({
            let b: nat = root_bits(magnitude(x.unsigned()) * pow2(149));
            &&& !fsqrt(x).negative()
            &&& fsqrt(x).unsigned() == (if b < INFINITY_BITS {
                b
            } else {
                INFINITY_BITS as nat
            })
        }),
{
    reveal(fsqrt);
}

/// Roots keep the order.
pub proof fn lemma_root_order(x: Single, y: Single)
    requires
        !x.negative(),
        y.is_finite(),
        fle(x, y),
    ensures
        fle(zero(), fsqrt(x)),
        fle(fsqrt(x), fsqrt(y)),
{
    lemma_order(x, y);
    assert(!y.negative() || y.is_zero());
    if x.is_zero() {
        assert(fsqrt(x) == x) by {
            reveal(fsqrt);
        }
        if !y.is_zero() {
            lemma_root_encoding(y);
        } else {
            assert(fsqrt(y) == y) by {
                reveal(fsqrt);
            }
        }
    } else {
        let u: nat = pow2(149);
        let a: nat = magnitude(x.unsigned());
        let b: nat = magnitude(y.unsigned());
        lemma_zero_magnitude(x);
        assert(a * u <= b * u) by (nonlinear_arith)
            requires
                a <= b,
        ;
        lemma_root_bits_monotone(a * u, b * u);
        lemma_root_encoding(x);
        lemma_root_encoding(y);
    }
}

/// The root of one is one.
pub proof fn lemma_root_one()
    ensures
        fsqrt(one()) == one(),
{
    let u: nat = pow2(149);
    lemma_one();
    lemma_pow2_pos(149);
    let s: nat = u * u;
    assert((u + 1) * (u + 1) > s && u * u <= s) by (nonlinear_arith)
        requires
            s == u * u,
            u > 0,
    ;
    lemma_root_floor_unique(s, u);
    lemma2_to64();
    lemma2_to64_rest();
    let g: nat = pow2(126);
    lemma_pow2_pos(126);
    lemma_pow2_adds(23, 126);
    lemma_quantum_unique(u, 126);
    assert(s == 0x4000_0000_0000 * (g * g)) by (nonlinear_arith)
        requires
            s == u * u,
            u == 0x80_0000 * g,
    ;
    let gg: nat = g * g;
    assert(gg > 0) by (nonlinear_arith)
        requires
            gg == g * g,
            g > 0,
    ;
    vstd::arithmetic::div_mod::lemma_div_multiples_vanish(0x4000_0000_0000, gg as int);
    assert(gg * 0x4000_0000_0000 == s);
    let f: nat = 0x80_0000;
    assert(f * f <= 0x4000_0000_0000 && (f + 1) * (f + 1) > 0x4000_0000_0000) by (nonlinear_arith)
        requires
            f == 0x80_0000,
    ;
    lemma_root_floor_unique(0x4000_0000_0000, f);
    assert(nearest_root(s, g) == f) by {
        let half: nat = (2 * f + 1) * (2 * f + 1) * gg;
        assert(4 * s < half) by (nonlinear_arith)
            requires
                s == 0x4000_0000_0000 * gg,
                half == (2 * f + 1) * (2 * f + 1) * gg,
                f == 0x80_0000,
                gg > 0,
        ;
    }
    lemma_root_encoding(one());
}

/// The root of a number from one to 2^24 is between one and 2^13.
pub proof fn lemma_root_range(x: Single)
    requires
        fle(one(), x),
        bounded(x, 24),
    ensures
        fle(one(), fsqrt(x)),
        bounded(fsqrt(x), 13),
        !fsqrt(x).negative(),
{
    lemma_one();
    lemma_root_one();
    lemma_root_order(one(), x);
    let u: nat = pow2(149);
    let a: nat = magnitude(x.unsigned());
    let s: nat = a * u;
    let k: nat = quantum(root_floor(s));
    lemma_root_encoding(x);
    lemma_root_digits(s);
    lemma_quantum(root_floor(s));
    lemma_root_floor(s);
    // s <= 2^322, so the root is at most 2^161 and its steps at most 2^138.
    lemma_pow2_adds(173, 149);
    lemma_pow2_adds(161, 161);
    lemma_pow2_pos(149);
    assert(s <= pow2(173) * u) by (nonlinear_arith)
        requires
            s == a * u,
            a <= pow2(173),
    ;
    let r: nat = root_floor(s);
    let m: nat = pow2(161);
    if r > m {
        assert(r * r > m * m) by (nonlinear_arith)
            requires
                r > m,
        ;
    }
    if k > 138 {
        lemma2_to64();
        lemma_pow2_adds(23, 139);
        lemma_pow2_strictly_increases(161, 162);
        if k > 139 {
            lemma_pow2_strictly_increases(139, k);
        }
    }
    lemma_bounded_bits(fsqrt(x), 13);
}

} // verus!
