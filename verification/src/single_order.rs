//! How the operations on [`Single`] follow the order of numbers, and where they give
//! back what they were given.
use crate::rounding::{
    lemma_floor_below, lemma_magnitude_monotone, lemma_quantum, lemma_quantum_unique,
    lemma_round_error, lemma_round_exact, lemma_round_monotone, magnitude, quantum, round_bits,
    INFINITY_BITS,
};
use crate::single::{
    fadd, fclamp, fdiv, fle, flt, fmax, fmul, fneg, from_int, fsub, size, to_int, zero, Single,
};
use crate::single_facts::{
    bounded, is_whole, lemma_bounded_product, lemma_magnitude_zero, lemma_opposite, lemma_order,
    lemma_round_at_most_power,
};
use vstd::arithmetic::power2::{
    lemma2_to64, lemma_pow2_adds, lemma_pow2_pos, lemma_pow2_strictly_increases, pow2,
};
use vstd::prelude::*;

verus! {

/// The number one.
pub const ONE: u32 = 0x3f80_0000;

pub open spec fn one() -> Single {
    Single { bits: ONE }
}

/// `x` is a number from zero to one.
pub open spec fn in_unit(x: Single) -> bool {
    fle(zero(), x) && fle(x, one())
}

/// The number one is the whole number one.
pub proof fn lemma_one()
    ensures
        is_whole(one(), 1),
        magnitude(one().unsigned()) == pow2(149),
        !one().negative(),
{
    lemma2_to64();
    lemma_pow2_adds(23, 126);
    assert(magnitude(ONE as nat) == 0x80_0000 * pow2(126));
}

/// Zero rounds to zero.
proof fn lemma_round_zero(d: nat)
    requires
        d > 0,
    ensures
        round_bits(0, d) == 0,
{
    lemma_magnitude_zero();
    assert(magnitude(0) * d == 0) by (nonlinear_arith)
        requires
            magnitude(0) == 0,
    ;
    lemma_round_exact(0, d);
}

/// A finite number is zero exactly where its magnitude is.
pub proof fn lemma_zero_magnitude(x: Single)
    ensures
        x.is_zero() <==> magnitude(x.unsigned()) == 0,
{
    lemma_magnitude_zero();
    if x.unsigned() > 0 {
        lemma_magnitude_monotone(0, x.unsigned());
    }
}

/// The place in the order of a rounded number of units.
spec fn rounded_rank(v: int) -> int {
    if v < 0 {
        -(round_bits(size(v), 1) as int)
    } else {
        round_bits(size(v), 1) as int
    }
}

proof fn lemma_rounded_rank(v: int, w: int)
    requires
        v <= w,
    ensures
        rounded_rank(v) <= rounded_rank(w),
{
    if v >= 0 {
        lemma_round_monotone(size(v), 1, size(w), 1);
    } else if w < 0 {
        lemma_round_monotone(size(w), 1, size(v), 1);
    }
}

/// A sum of finite numbers, by its place in the order.
proof fn lemma_sum_rank(x: Single, y: Single)
    requires
        x.is_finite(),
        y.is_finite(),
    ensures
        fadd(x, y).rank() == rounded_rank(x.units() + y.units()),
        !fadd(x, y).is_nan(),
{
    reveal(fadd);
    let v: int = x.units() + y.units();
    if v == 0 {
        lemma_round_zero(1);
    }
}

/// A larger first summand makes a sum no smaller.
pub proof fn lemma_add_order(x: Single, y: Single, z: Single)
    requires
        x.is_finite(),
        y.is_finite(),
        z.is_finite(),
        fle(x, y),
    ensures
        fle(fadd(x, z), fadd(y, z)),
        fle(fadd(z, x), fadd(z, y)),
{
    lemma_order(x, y);
    lemma_sum_rank(x, z);
    lemma_sum_rank(y, z);
    lemma_sum_rank(z, x);
    lemma_sum_rank(z, y);
    lemma_rounded_rank(x.units() + z.units(), y.units() + z.units());
    lemma_rounded_rank(z.units() + x.units(), z.units() + y.units());
}

/// A larger number makes a difference no smaller where it is on the left, and no larger
/// where it is on the right.
pub proof fn lemma_sub_order(x: Single, y: Single, z: Single)
    requires
        x.is_finite(),
        y.is_finite(),
        z.is_finite(),
        fle(x, y),
    ensures
        fle(fsub(x, z), fsub(y, z)),
        fle(fsub(z, y), fsub(z, x)),
{
    lemma_opposite(x);
    lemma_opposite(y);
    lemma_opposite(z);
    lemma_add_order(x, y, fneg(z));
    lemma_add_order(fneg(y), fneg(x), z);
}

/// A larger factor makes a product of numbers that are not negative no smaller.
pub proof fn lemma_mul_order(x: Single, y: Single, z: Single)
    requires
        y.is_finite(),
        z.is_finite(),
        fle(zero(), x),
        fle(x, y),
        fle(zero(), z),
    ensures
        fle(zero(), fmul(x, z)),
        fle(zero(), fmul(z, x)),
        fle(fmul(x, z), fmul(y, z)),
        fle(fmul(z, x), fmul(z, y)),
{
    reveal(fmul);
    lemma_order(x, y);
    lemma_zero_magnitude(x);
    lemma_zero_magnitude(y);
    lemma_zero_magnitude(z);
    lemma_pow2_pos(149);
    let d: nat = pow2(149);
    let a: nat = magnitude(x.unsigned());
    let b: nat = magnitude(y.unsigned());
    let c: nat = magnitude(z.unsigned());
    assert(a <= b);
    assert(a * c <= b * c) by (nonlinear_arith)
        requires
            a <= b,
    ;
    assert((a * c) * d <= (b * c) * d) by (nonlinear_arith)
        requires
            a * c <= b * c,
    ;
    assert(c * a == a * c && c * b == b * c) by (nonlinear_arith);
    lemma_round_monotone(a * c, d, b * c, d);
    if a == 0 || c == 0 {
        assert(a * c == 0) by (nonlinear_arith)
            requires
                a == 0 || c == 0,
        ;
        lemma_round_zero(d);
    }
    if b == 0 || c == 0 {
        assert(b * c == 0) by (nonlinear_arith)
            requires
                b == 0 || c == 0,
        ;
        lemma_round_zero(d);
    }
}

/// A larger dividend makes a quotient no smaller.
pub proof fn lemma_div_order(x: Single, y: Single, z: Single)
    requires
        z.is_finite(),
        fle(zero(), x),
        fle(x, y),
        flt(zero(), z),
    ensures
        fle(zero(), fdiv(x, z)),
        fle(fdiv(x, z), fdiv(y, z)),
{
    reveal(fdiv);
    if y.is_finite() {
        lemma_order(x, y);
    }
    lemma_zero_magnitude(x);
    lemma_zero_magnitude(y);
    lemma_zero_magnitude(z);
    let u: nat = pow2(149);
    let a: nat = magnitude(x.unsigned());
    let b: nat = magnitude(y.unsigned());
    let d: nat = magnitude(z.unsigned());
    if y.is_finite() {
        assert(a * u <= b * u) by (nonlinear_arith)
            requires
                a <= b,
        ;
        assert((a * u) * d <= (b * u) * d) by (nonlinear_arith)
            requires
                a * u <= b * u,
        ;
        lemma_round_monotone(a * u, d, b * u, d);
    }
    if a == 0 {
        assert(a * u == 0) by (nonlinear_arith)
            requires
                a == 0,
        ;
        lemma_round_zero(d);
    }
    if b == 0 {
        assert(b * u == 0) by (nonlinear_arith)
            requires
                b == 0,
        ;
        lemma_round_zero(d);
    }
}

/// A product with one is the other factor.
pub proof fn lemma_mul_one(x: Single)
    requires
        x.is_finite(),
    ensures
        fmul(x, one()) == x,
        fmul(one(), x) == x,
{
    reveal(fmul);
    lemma_one();
    lemma_pow2_pos(149);
    lemma_round_exact(x.unsigned(), pow2(149));
    assert(pow2(149) * magnitude(x.unsigned()) == magnitude(x.unsigned()) * pow2(149))
        by (nonlinear_arith);
}

/// A number divided by itself is one.
pub proof fn lemma_div_self(x: Single)
    requires
        x.is_finite(),
        !x.is_zero(),
    ensures
        fdiv(x, x) == one(),
{
    reveal(fdiv);
    lemma_one();
    lemma_zero_magnitude(x);
    let a: nat = magnitude(x.unsigned());
    assert(a * pow2(149) == pow2(149) * a) by (nonlinear_arith);
    lemma_round_exact(one().unsigned(), a);
}

/// Zero divided by a number is zero.
pub proof fn lemma_zero_over(x: Single)
    requires
        x.is_finite(),
        !x.is_zero(),
        !x.negative(),
    ensures
        fdiv(zero(), x) == zero(),
{
    reveal(fdiv);
    lemma_zero_magnitude(x);
    lemma_magnitude_zero();
    assert(magnitude(0) * pow2(149) == 0) by (nonlinear_arith)
        requires
            magnitude(0) == 0,
    ;
    lemma_round_zero(magnitude(x.unsigned()));
}

/// A product with a zero is a zero.
pub proof fn lemma_mul_zero(x: Single, y: Single)
    requires
        x.is_finite(),
        y.is_finite(),
        x.is_zero() || y.is_zero(),
    ensures
        fmul(x, y).is_zero(),
        fmul(x, y).negative() == (x.negative() != y.negative()),
{
    reveal(fmul);
    lemma_zero_magnitude(x);
    lemma_zero_magnitude(y);
    lemma_pow2_pos(149);
    assert(magnitude(x.unsigned()) * magnitude(y.unsigned()) == 0) by (nonlinear_arith)
        requires
            magnitude(x.unsigned()) == 0 || magnitude(y.unsigned()) == 0,
    ;
    lemma_round_zero(pow2(149));
}

/// A sum with a zero is the other summand, where that is not negative.
pub proof fn lemma_add_zero(x: Single, z: Single)
    requires
        x.is_finite(),
        !x.negative(),
        z.is_zero(),
    ensures
        fadd(x, z) == x,
        fadd(z, x) == x,
{
    reveal(fadd);
    lemma_magnitude_zero();
    lemma_zero_magnitude(x);
    lemma_round_exact(x.unsigned(), 1);
    lemma_round_zero(1);
}

/// A difference of a number that is not negative and a zero is the number.
pub proof fn lemma_sub_zero(x: Single, z: Single)
    requires
        x.is_finite(),
        !x.negative(),
        z.is_zero(),
    ensures
        fsub(x, z) == x,
{
    lemma_add_zero(x, fneg(z));
}

/// Whole numbers keep their order.
pub proof fn lemma_from_int_order(a: int, b: int)
    requires
        a <= b,
        -0x1_0000_0000 <= a,
        b <= 0x1_0000_0000,
    ensures
        fle(from_int(a), from_int(b)),
        from_int(a).is_finite(),
        from_int(b).is_finite(),
{
    reveal(from_int);
    let u: nat = pow2(149);
    lemma2_to64();
    lemma_pow2_adds(32, 149);
    assert(size(a) * u <= pow2(181)) by (nonlinear_arith)
        requires
            size(a) <= 0x1_0000_0000,
            pow2(181) == 0x1_0000_0000 * u,
    ;
    assert(size(b) * u <= pow2(181)) by (nonlinear_arith)
        requires
            size(b) <= 0x1_0000_0000,
            pow2(181) == 0x1_0000_0000 * u,
    ;
    lemma_round_at_most_power(size(a) * u, 1, 181);
    lemma_round_at_most_power(size(b) * u, 1, 181);
    if a >= 0 {
        assert(size(a) * u <= size(b) * u) by (nonlinear_arith)
            requires
                size(a) <= size(b),
        ;
        lemma_round_monotone(size(a) * u, 1, size(b) * u, 1);
    } else if b < 0 {
        assert(size(b) * u <= size(a) * u) by (nonlinear_arith)
            requires
                size(b) <= size(a),
        ;
        lemma_round_monotone(size(b) * u, 1, size(a) * u, 1);
    }
}

/// Whole parts keep the order.
pub proof fn lemma_to_int_order(x: Single, y: Single, lo: int, hi: int)
    requires
        fle(x, y),
        lo <= hi,
        x.is_finite(),
        y.is_finite(),
    ensures
        lo <= to_int(x, lo, hi) <= to_int(y, lo, hi) <= hi,
{
    reveal(to_int);
    lemma_order(x, y);
    lemma_pow2_pos(149);
    let u: int = pow2(149) as int;
    let a: nat = magnitude(x.unsigned());
    let b: nat = magnitude(y.unsigned());
    lemma_zero_magnitude(x);
    lemma_zero_magnitude(y);
    assert(a / pow2(149) >= 0 && b / pow2(149) >= 0) by (nonlinear_arith)
        requires
            pow2(149) > 0,
    ;
    if a <= b {
        vstd::arithmetic::div_mod::lemma_div_is_ordered(a as int, b as int, u);
    } else {
        vstd::arithmetic::div_mod::lemma_div_is_ordered(b as int, a as int, u);
    }
}

/// The numbers from zero to one are bounded.
pub proof fn lemma_unit_bounded(x: Single)
    requires
        in_unit(x),
    ensures
        bounded(x, 0),
        x.negative() ==> x.is_zero(),
{
    lemma_one();
    lemma_order(x, one());
    lemma_order(zero(), x);
    lemma_magnitude_zero();
    lemma_zero_magnitude(x);
}

/// The opposite of a factor gives the opposite of a product.
pub proof fn lemma_mul_opposite(x: Single, y: Single)
    requires
        x.is_finite(),
        y.is_finite(),
    ensures
        fmul(fneg(x), y) == fneg(fmul(x, y)),
{
    reveal(fmul);
}

/// What is moved into the range from zero to one is there.
pub proof fn lemma_clamp_unit(x: Single)
    requires
        !x.is_nan(),
    ensures
        in_unit(fclamp(x, zero(), one())),
{
}

/// The larger of two numbers is no less than either.
pub proof fn lemma_max(x: Single, y: Single)
    requires
        !y.is_nan(),
    ensures
        fle(y, fmax(x, y)),
        !x.is_nan() ==> fle(x, fmax(x, y)),
        fmax(x, y) == x || fmax(x, y) == y,
{
}

/// A number is bounded by a power of two where its encoding is no larger.
pub proof fn lemma_bounded_bits(x: Single, e: nat)
    requires
        x.unsigned() <= (127 + e) * 0x80_0000,
        e <= 100,
    ensures
        bounded(x, e),
{
    let b: nat = (127 + e) * 0x80_0000;
    lemma2_to64();
    lemma_pow2_adds(23, 126 + e);
    assert(magnitude(b) == 0x80_0000 * pow2(126 + e));
    if x.unsigned() < b {
        lemma_magnitude_monotone(x.unsigned(), b);
    }
}

/// What a number from zero to one leaves of one.
pub proof fn lemma_remaining(x: Single)
    requires
        in_unit(x),
    ensures
        in_unit(fsub(one(), x)),
        bounded(fsub(one(), x), 0),
{
    lemma_unit_bounded(x);
    lemma_one();
    lemma_sub_order(zero(), x, one());
    lemma_sub_order(x, one(), one());
    lemma_sub_zero(one(), zero());
    assert(fsub(one(), one()).is_zero()) by {
        reveal(fadd);
        lemma_round_zero(1);
    }
    lemma_unit_bounded(fsub(one(), x));
}

/// What a number from zero to one leaves of a span falls as the number grows.
pub proof fn lemma_span_order(x: Single, y: Single, span: Single, least: Single)
    requires
        in_unit(x),
        in_unit(y),
        fle(x, y),
        bounded(span, 3),
        !span.negative(),
        least.is_finite(),
    ensures
        fle(
            fadd(fmul(fsub(one(), y), span), least),
            fadd(fmul(fsub(one(), x), span), least),
        ),
{
    lemma_unit_bounded(x);
    lemma_unit_bounded(y);
    lemma_one();
    lemma_remaining(x);
    lemma_remaining(y);
    lemma_sub_order(x, y, one());
    lemma_mul_order(fsub(one(), y), fsub(one(), x), span);
    lemma_bounded_product(fsub(one(), x), span, 0, 3);
    lemma_bounded_product(fsub(one(), y), span, 0, 3);
    lemma_add_order(fmul(fsub(one(), y), span), fmul(fsub(one(), x), span), least);
}

/// The rounding of a fraction below one is off by at most half of 2^125 units.
pub proof fn lemma_fine_below_one(n: nat, d: nat)
    requires
        d > 0,
        n < pow2(149) * d,
        round_bits(n, d) < INFINITY_BITS,
    ensures
        2 * (magnitude(round_bits(n, d)) * d) <= 2 * n + d * pow2(125),
        2 * n <= 2 * (magnitude(round_bits(n, d)) * d) + d * pow2(125),
        pow2(125) > 0,
{
    let k: nat = quantum(n / d);
    lemma_round_error(n, d);
    lemma_quantum(n / d);
    lemma_floor_below(n, d, pow2(149));
    assert(pow2(149) * d == d * pow2(149)) by (nonlinear_arith);
    lemma2_to64();
    lemma_pow2_pos(125);
    if k > 125 {
        lemma_pow2_adds(23, 126);
        if k > 126 {
            lemma_pow2_strictly_increases(126, k);
        }
    } else if k < 125 {
        lemma_pow2_strictly_increases(k, 125);
    }
    assert(d * pow2(k) <= d * pow2(125)) by (nonlinear_arith)
        requires
            pow2(k) <= pow2(125),
    ;
}

/// What is above one by less than half a step of the grid rounds to at most one.
pub proof fn lemma_round_little_above_one(t: nat)
    requires
        t < pow2(149) + pow2(125),
    ensures
        round_bits(t, 1) <= ONE,
{
    let u: nat = pow2(149);
    lemma_one();
    if t <= u {
        lemma_round_exact(one().unsigned(), 1);
        lemma_round_monotone(t, 1, u, 1);
    } else {
        let r: nat = round_bits(t, 1);
        lemma2_to64();
        lemma_pow2_pos(125);
        lemma_pow2_adds(23, 126);
        lemma_pow2_adds(24, 126);
        lemma_pow2_adds(1, 125);
        lemma_pow2_adds(1, 149);
        lemma_quantum_unique(t, 126);
        lemma_round_at_most_power(t, 1, 150);
        lemma_round_error(t, 1);
        // The number after one is larger by 2^126 units.
        assert(magnitude((ONE + 1) as nat) == 0x80_0001 * pow2(126));
        if r > ONE + 1 {
            lemma_magnitude_monotone((ONE + 1) as nat, r);
        }
    }
}

} // verus!
