//! The small generator behind jitter.
use crate::reals::{lemma_spread, lemma_times_same};
use crate::rounding::{lemma_round_exact, magnitude};
use crate::single::{fadd, fclamp, fdiv, fle, fmul, fneg, from_int, fsub, zero, Single};
use crate::single_facts::{
    lemma_bounded_sum, lemma_from_int, lemma_magnitude_zero, lemma_whole_size,
};
use crate::single_order::{
    in_unit, lemma_add_order, lemma_add_zero, lemma_bounded_bits, lemma_clamp_unit, lemma_div_order,
    lemma_div_self, lemma_from_int_order, lemma_mul_one, lemma_mul_opposite, lemma_mul_order,
    lemma_mul_zero, lemma_one, lemma_sub_order, lemma_unit_bounded, one, ONE,
};
use crate::values::{
    lemma_difference, lemma_product, lemma_ratio, lemma_sum, lemma_unit_value, lemma_value_bits,
    lemma_value_order, near, slack, value,
};
use vstd::arithmetic::power2::{
    lemma2_to64, lemma_pow2_adds, lemma_pow2_pos, lemma_pow2_unfold, pow2,
};
use vstd::prelude::*;

verus! {

/// The number 0.5.
pub const HALF: u32 = 0x3f00_0000;

/// The number 1.5.
pub const ONE_AND_A_HALF: u32 = 0x3fc0_0000;

/// What the generator starts from, also where its state is zero.
pub const SEED: u32 = 0x9e37_79b9;

/// The state that follows `s`.
pub open spec fn xorshift(s: u32) -> u32 {
    let a: u32 = if s == 0 {
        SEED
    } else {
        s
    };
    let b: u32 = a ^ (a << 13);
    let c: u32 = b ^ (b >> 17);
    c ^ (c << 5)
}

/// A state as a fraction of the largest one.
pub open spec fn fraction(s: u32) -> Single {
    fdiv(from_int(s as int), from_int(u32::MAX as int))
}

/// Moves the generator on.
pub fn next_state(s: u32) -> (r: u32)
    ensures
        r == xorshift(s),
{
    let a: u32 = if s == 0 {
        SEED
    } else {
        s
    };
    let b: u32 = a ^ (a << 13);
    let c: u32 = b ^ (b >> 17);
    c ^ (c << 5)
}

/// The fraction that a state stands for.
pub fn fraction_of(s: u32) -> (r: Single)
    ensures
        r == fraction(s),
{
    Single::from_u64(s as u64).over(Single::from_u64(u32::MAX as u64))
}

/// The factor, between one half and three halves, that the fraction `r` and the jitter
/// give.
pub open spec fn variation(r: Single, jitter: Single) -> Single {
    let strength = fclamp(jitter, zero(), Single { bits: ONE });
    fadd(Single { bits: ONE }, fmul(fsub(r, Single { bits: HALF }), strength))
}

/// The factor that a fraction and the jitter give.
pub fn variation_of(r: Single, jitter: Single) -> (v: Single)
    ensures
        v == variation(r, jitter),
{
    let one = Single { bits: ONE };
    let strength = jitter.clamped(Single { bits: 0 }, one);
    one.plus(r.minus(Single { bits: HALF }).times(strength))
}

/// The generator never stops at zero.
pub proof fn lemma_xorshift_nonzero(s: u32)
    ensures
        xorshift(s) != 0,
{
    let a: u32 = if s == 0 {
        SEED
    } else {
        s
    };
    let b: u32 = a ^ (a << 13);
    let c: u32 = b ^ (b >> 17);
    assert(a != 0 ==> a ^ (a << 13) != 0) by (bit_vector);
    assert(b != 0 ==> b ^ (b >> 17) != 0) by (bit_vector);
    assert(c != 0 ==> c ^ (c << 5) != 0) by (bit_vector);
}

/// Two states other than zero that have the same successor are the same.
pub proof fn lemma_xorshift_injective(s: u32, t: u32)
    requires
        s != 0,
        t != 0,
        xorshift(s) == xorshift(t),
    ensures
        s == t,
{
    let b1: u32 = s ^ (s << 13);
    let b2: u32 = t ^ (t << 13);
    let c1: u32 = b1 ^ (b1 >> 17);
    let c2: u32 = b2 ^ (b2 >> 17);
    assert(c1 ^ (c1 << 5) == c2 ^ (c2 << 5) ==> c1 == c2) by (bit_vector);
    assert(b1 ^ (b1 >> 17) == b2 ^ (b2 >> 17) ==> b1 == b2) by (bit_vector);
    assert(s ^ (s << 13) == t ^ (t << 13) ==> s == t) by (bit_vector);
}

/// Fractions are numbers from zero to one.
pub proof fn lemma_fraction_in_unit(s: u32)
    ensures
        in_unit(fraction(s)),
{
    let n = from_int(s as int);
    let d = from_int(u32::MAX as int);
    lemma_from_int_order(0, s as int);
    lemma_from_int_order(s as int, u32::MAX as int);
    lemma_from_int_order(1, u32::MAX as int);
    lemma_from_int(0);
    lemma_from_int(1);
    lemma_whole_size(from_int(0), 0);
    lemma_whole_size(from_int(1), 1);
    lemma_div_order(n, d, d);
    lemma_div_self(d);
}

/// The halves, in units.
proof fn lemma_halves()
    ensures
        (Single { bits: HALF }).units() == pow2(148),
        (Single { bits: ONE_AND_A_HALF }).units() == 3 * pow2(148),
        one().units() == 2 * pow2(148),
{
    lemma2_to64();
    lemma_one();
    lemma_pow2_unfold(149);
    lemma_pow2_adds(23, 125);
    assert(magnitude(HALF as nat) == 0x80_0000 * pow2(125));
    lemma_pow2_adds(22, 126);
    assert(magnitude(ONE_AND_A_HALF as nat) == 0xc0_0000 * pow2(126));
}

/// The factor is between one half and three halves, whatever the jitter.
pub proof fn lemma_variation_range(r: Single, jitter: Single)
    requires
        in_unit(r),
        !jitter.is_nan(),
    ensures
        fle(Single { bits: HALF }, variation(r, jitter)),
        fle(variation(r, jitter), Single { bits: ONE_AND_A_HALF }),
{
    let half = Single { bits: HALF };
    let strength = fclamp(jitter, zero(), one());
    let t = fsub(r, half);
    let p = fmul(t, strength);
    lemma_halves();
    lemma_clamp_unit(jitter);
    lemma_unit_bounded(strength);
    lemma_unit_bounded(r);
    // t is between -1/2 and 1/2.
    lemma_sub_order(zero(), r, half);
    lemma_sub_order(r, one(), half);
    lemma_magnitude_zero();
    lemma_round_exact(half.unsigned(), 1);
    lemma_pow2_pos(148);
    assert(fsub(zero(), half) == fneg(half) && fsub(one(), half) == half) by {
        reveal(fadd);
    }
    // So is its product with the strength.
    assert(fle(fneg(half), p) && fle(p, half)) by {
        if t.negative() {
            lemma_mul_order(strength, one(), fneg(t));
            lemma_mul_one(fneg(t));
            lemma_mul_opposite(fneg(t), strength);
            assert(fneg(fneg(t)) == t);
        } else {
            lemma_mul_order(strength, one(), t);
            lemma_mul_one(t);
        }
    }
    lemma_add_order(fneg(half), p, one());
    lemma_add_order(p, half, one());
    lemma_round_exact((Single { bits: ONE_AND_A_HALF }).unsigned(), 1);
    assert(fadd(one(), fneg(half)) == half && fadd(one(), half) == (Single {
        bits: ONE_AND_A_HALF,
    })) by {
        reveal(fadd);
    }
}

/// Without jitter nothing varies.
pub proof fn lemma_no_jitter(r: Single, jitter: Single)
    requires
        in_unit(r),
        jitter.is_zero(),
    ensures
        variation(r, jitter) == one(),
{
    let half = Single { bits: HALF };
    let t = fsub(r, half);
    lemma_unit_bounded(r);
    lemma_bounded_bits(half, 0);
    lemma_bounded_sum(r, half, 0);
    lemma_one();
    lemma_mul_zero(t, jitter);
    lemma_add_zero(one(), fmul(t, jitter));
}

/// The state after so many draws.
pub open spec fn after_draws(s: u32, n: nat) -> u32
    decreases n,
{
    if n == 0 {
        s
    } else {
        xorshift(after_draws(s, (n - 1) as nat))
    }
}

/// A state stands for its share of the largest one.
pub proof fn lemma_fraction_value(s: u32)
    ensures
        fraction(s).is_finite(),
        near(value(fraction(s)), s as real / 4294967295real, 1real / 2097152real),
        0real <= value(fraction(s)) <= 1real,
{
    lemma_fraction_in_unit(s);
    lemma_unit_value(fraction(s));
    lemma_ratio(s as int, u32::MAX as int);
}

/// The factor is one, more or less by as much of the jitter as the fraction is above or
/// below one half.
pub proof fn lemma_variation_value(r: Single, jitter: Single)
    requires
        in_unit(r),
        in_unit(jitter),
    ensures
        variation(r, jitter).is_finite(),
        near(
            value(variation(r, jitter)),
            1real + (value(r) - 1real / 2real) * value(jitter),
            1real / 4194304real,
        ),
        1real / 2real <= value(variation(r, jitter)) <= 3real / 2real,
{
    let half = Single { bits: HALF };
    let t = fsub(r, half);
    lemma_unit_value(r);
    lemma_unit_value(jitter);
    lemma2_to64();
    lemma_value_bits(half, 24);
    assert(value(half) * 16777216real == 8388608real);
    lemma_difference(r, half, 1real / 2real);
    let a: real = value(t);
    let b: real = value(r) - 1real / 2real;
    let j: real = value(jitter);
    lemma_spread(a, b, j);
    lemma_times_same(a - b, slack(1real / 2real), j);
    lemma_times_same(-slack(1real / 2real), a - b, j);
    lemma_times_same(j, 1real, slack(1real / 2real));
    lemma_spread(slack(1real / 2real), 0real, j);
    lemma_times_same(b, 1real / 2real, j);
    lemma_times_same(-1real / 2real, b, j);
    lemma_product(t, jitter, 1real);
    lemma_sum(one(), fmul(t, jitter), 2real);
    lemma_variation_range(r, jitter);
    lemma_halves();
    lemma_value_bits(Single { bits: ONE_AND_A_HALF }, 23);
    assert(value(Single { bits: ONE_AND_A_HALF }) * 8388608real == 12582912real);
    lemma_value_order(half, variation(r, jitter));
    lemma_value_order(variation(r, jitter), Single { bits: ONE_AND_A_HALF });
}

/// A jitter above one counts as one, and one below zero as none.
pub proof fn lemma_jitter_limits(r: Single, jitter: Single)
    requires
        !jitter.is_nan(),
    ensures
        fle(one(), jitter) ==> variation(r, jitter) == variation(r, one()),
        fle(jitter, zero()) && !jitter.is_zero() ==> variation(r, jitter) == variation(r, zero()),
{
}

} // verus!
