//! Colours as hosts edit them (hue, saturation, brightness, alpha) and as shaders take
//! them.
use crate::reals::{lemma_near_product, lemma_spread, lemma_times_same};
use crate::rounding::{lemma_round_exact, lemma_round_monotone, magnitude, round_bits};
use crate::single::{fabs, fadd, fle, flt, fmul, fneg, frem, frem_euclid, fsub, zero, Single};
use crate::single_facts::{
    bounded, is_whole, lemma_bounded_product, lemma_magnitude_zero, lemma_opposite, lemma_order,
    lemma_round_at_most_power, lemma_signed, lemma_whole_difference, lemma_whole_size,
    lemma_whole_sum,
};
use crate::single_order::{
    in_unit, lemma_add_order, lemma_add_zero, lemma_bounded_bits, lemma_fine_below_one,
    lemma_mul_one, lemma_mul_order, lemma_mul_zero, lemma_one, lemma_remaining,
    lemma_round_little_above_one, lemma_sub_order, lemma_sub_zero, lemma_unit_bounded,
    lemma_zero_magnitude, one, ONE,
};
use crate::values::{
    lemma_difference, lemma_product, lemma_remainder_value, lemma_sum, lemma_unit_value,
    lemma_value_bits, lemma_value_opposite, lemma_value_order, lemma_value_whole, near, value,
};
use vstd::arithmetic::div_mod::{lemma_mod_bound, lemma_small_mod};
use vstd::arithmetic::power2::{
    lemma2_to64, lemma2_to64_rest, lemma_pow2_adds, lemma_pow2_pos, pow2,
};
use vstd::prelude::*;

verus! {

/// The number two.
pub const TWO: u32 = 0x4000_0000;

/// The number three.
pub const THREE: u32 = 0x4040_0000;

/// The number four.
pub const FOUR: u32 = 0x4080_0000;

/// The number five.
pub const FIVE: u32 = 0x40a0_0000;

/// The number six.
pub const SIX: u32 = 0x40c0_0000;

/// The number 0.0001: saturations up to it are grey.
pub const GREY: u32 = 0x38d1_b717;

/// A colour with its opacity.
#[derive(Clone, Copy, Debug)]
pub struct Hsba {
    pub hue: Single,
    pub saturation: Single,
    pub brightness: Single,
    pub alpha: Single,
}

/// The hue as a place on a wheel of six parts.
pub open spec fn wheel(h: Single) -> Single {
    fmul(frem_euclid(h, Single { bits: ONE }), Single { bits: SIX })
}

/// The parts of a pure colour with strength `c` and second strength `x` at `place` on the
/// wheel.
pub open spec fn on_wheel(place: Single, c: Single, x: Single) -> (Single, Single, Single) {
    if flt(place, Single { bits: ONE }) {
        (c, x, zero())
    } else if flt(place, Single { bits: TWO }) {
        (x, c, zero())
    } else if flt(place, Single { bits: THREE }) {
        (zero(), c, x)
    } else if flt(place, Single { bits: FOUR }) {
        (zero(), x, c)
    } else if flt(place, Single { bits: FIVE }) {
        (x, zero(), c)
    } else {
        (c, zero(), x)
    }
}

/// The second strength: how far the place is from the odd corners of the wheel.
pub open spec fn second_strength(place: Single, c: Single) -> Single {
    fmul(
        c,
        fsub(
            Single { bits: ONE },
            fabs(fsub(frem(place, Single { bits: TWO }), Single { bits: ONE })),
        ),
    )
}

/// Red, green and blue of a colour.
pub open spec fn rgb(h: Single, s: Single, v: Single) -> (Single, Single, Single) {
    let c = fmul(v, s);
    let (r, g, b) = on_wheel(wheel(h), c, second_strength(wheel(h), c));
    let m = fsub(v, c);
    (fadd(r, m), fadd(g, m), fadd(b, m))
}

/// Red, green and blue of a colour; a grey of its brightness where it has hardly any
/// saturation.
pub open spec fn rgb_or_grey(h: Single, s: Single, v: Single) -> (Single, Single, Single) {
    if fle(s, Single { bits: GREY }) {
        (v, v, v)
    } else {
        rgb(h, s, v)
    }
}

/// Red, green and blue of a colour.
pub fn hsb_to_rgb(h: Single, s: Single, v: Single) -> (out: (Single, Single, Single))
    ensures
        out == rgb(h, s, v),
{
    let one = Single { bits: ONE };
    let nothing = Single { bits: 0 };
    let place = h.modulo_positive(one).times(Single { bits: SIX });
    let c = v.times(s);
    let x = c.times(one.minus(place.modulo(Single { bits: TWO }).minus(one).absolute()));
    let (r, g, b) = if place.less(one) {
        (c, x, nothing)
    } else if place.less(Single { bits: TWO }) {
        (x, c, nothing)
    } else if place.less(Single { bits: THREE }) {
        (nothing, c, x)
    } else if place.less(Single { bits: FOUR }) {
        (nothing, x, c)
    } else if place.less(Single { bits: FIVE }) {
        (x, nothing, c)
    } else {
        (c, nothing, x)
    };
    let m = v.minus(c);
    (r.plus(m), g.plus(m), b.plus(m))
}

/// Red, green and blue of a colour; a grey of its brightness where it has hardly any
/// saturation.
pub fn hsv_to_rgb(h: Single, s: Single, v: Single) -> (out: (Single, Single, Single))
    ensures
        out == rgb_or_grey(h, s, v),
{
    if s.at_most(Single { bits: GREY }) {
        (v, v, v)
    } else {
        hsb_to_rgb(h, s, v)
    }
}

/// The whole numbers that places on the wheel are compared with.
proof fn lemma_whole_constants()
    ensures
        is_whole(Single { bits: TWO }, 2),
        is_whole(Single { bits: SIX }, 6),
        bounded(Single { bits: TWO }, 1),
        bounded(Single { bits: SIX }, 3),
{
    lemma2_to64();
    lemma_pow2_adds(23, 127);
    lemma_pow2_adds(1, 149);
    lemma_pow2_adds(22, 128);
    lemma_pow2_adds(21, 128);
    assert(magnitude(SIX as nat) == 0xc0_0000 * pow2(128));
    lemma_bounded_bits(Single { bits: TWO }, 1);
    lemma_bounded_bits(Single { bits: SIX }, 3);
}

/// A remainder is smaller than the divisor, up to rounding.
proof fn lemma_remainder(x: Single, y: Single)
    requires
        x.is_finite(),
        y.is_finite(),
        flt(zero(), y),
    ensures
        frem(x, y).is_finite(),
        frem(x, y).negative() == x.negative(),
        frem(x, y).unsigned() <= y.unsigned(),
        x.is_zero() ==> frem(x, y).is_zero(),
{
    reveal(frem);
    lemma_zero_magnitude(y);
    let a: int = magnitude(x.unsigned()) as int;
    let b: int = magnitude(y.unsigned()) as int;
    lemma_mod_bound(a, b);
    let r: nat = magnitude(x.unsigned()) % magnitude(y.unsigned());
    lemma_round_exact(y.unsigned(), 1);
    lemma_round_monotone(r, 1, magnitude(y.unsigned()), 1);
    lemma_signed(x.negative(), round_bits(r, 1));
    if x.is_zero() {
        lemma_zero_magnitude(x);
        lemma_small_mod(0, magnitude(y.unsigned()));
        lemma_round_exact(0, 1);
    }
}

/// A hue has a place on the wheel.
proof fn lemma_wheel(h: Single)
    requires
        h.is_finite(),
    ensures
        fle(zero(), wheel(h)),
        bounded(wheel(h), 3),
{
    let r = frem(h, one());
    let six = Single { bits: SIX };
    lemma_one();
    lemma_whole_constants();
    lemma_remainder(h, one());
    let t = frem_euclid(h, one());
    assert(in_unit(t)) by {
        if flt(r, zero()) {
            lemma_add_order(fneg(one()), r, one());
            lemma_add_order(r, zero(), one());
            lemma_add_zero(one(), zero());
            lemma_opposite(one());
            lemma_whole_sum(fneg(one()), -1, one(), 1);
            lemma_whole_size(fadd(fneg(one()), one()), 0);
        }
    }
    lemma_unit_bounded(t);
    lemma_bounded_product(t, six, 0, 3);
    lemma_mul_order(t, one(), six);
}

/// The factor of the second strength is between zero and one.
proof fn lemma_second_factor(place: Single)
    requires
        fle(zero(), place),
        place.is_finite(),
    ensures
        in_unit(
            fsub(one(), fabs(fsub(frem(place, Single { bits: TWO }), one()))),
        ),
{
    let two = Single { bits: TWO };
    let r = frem(place, two);
    let d = fsub(r, one());
    lemma_one();
    lemma_whole_constants();
    lemma_remainder(place, two);
    // The remainder is between zero and two, its distance from one at most one.
    assert(fle(zero(), r) && fle(r, two));
    lemma_sub_order(zero(), r, one());
    lemma_sub_order(r, two, one());
    lemma_magnitude_zero();
    assert(0 * pow2(149) == 0) by (nonlinear_arith);
    lemma_whole_difference(zero(), 0, one(), 1);
    lemma_whole_difference(two, 2, one(), 1);
    let low = fsub(zero(), one());
    let high = fsub(two, one());
    lemma_whole_size(low, -1);
    lemma_whole_size(high, 1);
    lemma_order(low, d);
    lemma_order(d, high);
    assert(in_unit(fabs(d))) by {
        lemma_order(fabs(d), one());
    }
    lemma_remaining(fabs(d));
}

/// A colour without saturation is a grey of its brightness.
pub proof fn lemma_unsaturated_is_grey(h: Single, s: Single, v: Single)
    requires
        h.is_finite(),
        s.is_zero(),
        v.is_finite(),
        !v.negative(),
    ensures
        rgb(h, s, v) == (v, v, v),
{
    let c = fmul(v, s);
    lemma_mul_zero(v, s);
    lemma_faint(h, c, v);
    lemma_sub_zero(v, c);
}

/// The two conversions agree, where a colour has no saturation or more than hardly any.
pub proof fn lemma_conversions_agree(h: Single, s: Single, v: Single)
    requires
        h.is_finite(),
        s.is_zero() || flt(Single { bits: GREY }, s),
        v.is_finite(),
        !v.negative(),
    ensures
        rgb_or_grey(h, s, v) == rgb(h, s, v),
{
    if s.is_zero() {
        lemma_unsaturated_is_grey(h, s, v);
    }
}

/// A colour without brightness is black.
pub proof fn lemma_dark_is_black(h: Single, s: Single)
    requires
        h.is_finite(),
        s.is_finite(),
    ensures
        rgb(h, s, zero()) == (zero(), zero(), zero()),
{
    let c = fmul(zero(), s);
    lemma_mul_zero(zero(), s);
    lemma_faint(h, c, zero());
    lemma_sub_zero(zero(), c);
}

/// The parts of a colour of no strength add nothing.
proof fn lemma_faint(h: Single, c: Single, m: Single)
    requires
        h.is_finite(),
        c.is_zero(),
        m.is_finite(),
        !m.negative(),
    ensures
        ({
            let (r, g, b) = on_wheel(wheel(h), c, second_strength(wheel(h), c));
            fadd(r, m) == m && fadd(g, m) == m && fadd(b, m) == m
        }),
{
    let place = wheel(h);
    let f = fsub(one(), fabs(fsub(frem(place, Single { bits: TWO }), one())));
    lemma_wheel(h);
    lemma_second_factor(place);
    lemma_unit_bounded(f);
    lemma_mul_zero(c, f);
    lemma_add_zero(m, c);
    lemma_add_zero(m, zero());
    lemma_add_zero(m, second_strength(place, c));
}

/// What is left of a brightness of at most one is made up again to at most one.
proof fn lemma_made_up(c: Single, v: Single)
    requires
        in_unit(v),
        in_unit(c),
        fle(c, v),
    ensures
        fle(zero(), fsub(v, c)),
        fle(fsub(v, c), one()),
        fle(fadd(c, fsub(v, c)), one()),
{
    let m = fsub(v, c);
    let u: nat = pow2(149);
    lemma_one();
    lemma_unit_bounded(v);
    lemma_unit_bounded(c);
    lemma_magnitude_zero();
    lemma_zero_magnitude(v);
    lemma_zero_magnitude(c);
    lemma_order(c, v);
    lemma_order(v, one());
    lemma_order(zero(), c);
    lemma_opposite(c);
    let a: int = v.units();
    let b: int = c.units();
    let n: nat = (a - b) as nat;
    lemma_round_at_most_power(n, 1, 149);
    let r: nat = round_bits(n, 1);
    assert(m.units() == magnitude(r) && m.unsigned() == r) by {
        reveal(fadd);
        lemma_round_exact(0, 1);
    }
    lemma_order(zero(), m);
    lemma_order(m, one());
    lemma_pow2_pos(124);
    lemma2_to64();
    lemma_pow2_adds(1, 124);
    lemma_pow2_adds(1, 125);
    lemma_pow2_adds(24, 125);
    let t: nat = (b + magnitude(r)) as nat;
    assert(t <= u + pow2(124)) by {
        if n < u {
            lemma_fine_below_one(n, 1);
        } else {
            lemma_round_exact(one().unsigned(), 1);
        }
    }
    assert(fle(fadd(c, m), one())) by {
        reveal(fadd);
        lemma_round_little_above_one(t);
        lemma_signed(false, round_bits(t, 1));
        lemma_round_exact(0, 1);
    }
}

/// The parts of a colour are numbers from zero to one where its saturation and its
/// brightness are.
pub proof fn lemma_rgb_in_unit(h: Single, s: Single, v: Single)
    requires
        h.is_finite(),
        in_unit(s),
        in_unit(v),
    ensures
        in_unit(rgb(h, s, v).0),
        in_unit(rgb(h, s, v).1),
        in_unit(rgb(h, s, v).2),
{
    let place = wheel(h);
    let f = fsub(one(), fabs(fsub(frem(place, Single { bits: TWO }), one())));
    let c = fmul(v, s);
    let x = fmul(c, f);
    let m = fsub(v, c);
    lemma_one();
    lemma_wheel(h);
    lemma_second_factor(place);
    lemma_unit_bounded(v);
    lemma_unit_bounded(s);
    lemma_unit_bounded(f);
    lemma_mul_order(s, one(), v);
    lemma_mul_one(v);
    lemma_unit_bounded(c);
    lemma_mul_order(f, one(), c);
    lemma_mul_one(c);
    lemma_made_up(c, v);
    lemma_unit_bounded(m);
    lemma_unit_bounded(x);
    lemma_part(zero(), c, m);
    lemma_part(x, c, m);
    lemma_part(c, c, m);
}

proof fn lemma_part(p: Single, c: Single, m: Single)
    requires
        in_unit(m),
        fle(zero(), p),
        fle(p, c),
        c.is_finite(),
        fle(fadd(c, m), one()),
    ensures
        in_unit(fadd(p, m)),
{
    lemma_unit_bounded(m);
    lemma_add_order(p, c, m);
    lemma_add_order(zero(), p, m);
    lemma_order(zero(), m);
    lemma_zero_magnitude(m);
    assert(fle(zero(), fadd(zero(), m))) by {
        if m.negative() {
            reveal(fadd);
            lemma_magnitude_zero();
            lemma_round_exact(0, 1);
        } else {
            lemma_add_zero(m, zero());
        }
    }
}

/// `r` moved into the range from zero to one.
pub open spec fn unit_part(r: real) -> real {
    if r < 0real {
        0real
    } else if r > 1real {
        1real
    } else {
        r
    }
}

/// How far two reals are apart.
pub open spec fn gap(a: real, b: real) -> real {
    if a < b {
        b - a
    } else {
        a - b
    }
}

/// How much of the pure colour red, green and blue each have at the place `p` of six on the
/// wheel.
pub open spec fn pure_parts(p: real) -> (real, real, real) {
    (
        unit_part(gap(p, 3real) - 1real),
        unit_part(2real - gap(p, 2real)),
        unit_part(2real - gap(p, 4real)),
    )
}

/// A part of a colour: what is left without saturation, and of the saturated rest the part
/// `f`.
proof fn lemma_part_value(c: Single, m: Single, f: Single, p: Single, s: real, v: real, e: real)
    requires
        c.is_finite(),
        m.is_finite(),
        f.is_finite(),
        0real <= s <= 1real,
        0real <= v <= 1real,
        0real <= e <= 1real,
        0real <= value(f) <= 1real,
        0real <= v * s <= 1real,
        near(value(c), v * s, 1real / 10000000real),
        near(value(m), v - v * s, 1real / 4000000real),
        near(value(f), e, 1real / 500000real),
        p == fmul(c, f),
    ensures
        fadd(p, m).is_finite(),
        near(value(fadd(p, m)), (v - v * s) + (v * s) * e, 1real / 300000real),
{
    lemma_near_product(
        value(c),
        v * s,
        1real / 10000000real,
        value(f),
        e,
        1real / 500000real,
        1real,
        1real,
    );
    lemma_times_same(v * s, 1real, e);
    lemma_times_same(0real, v * s, e);
    lemma_spread(0real, 0real, e);
    lemma_product(c, f, 2real);
    lemma_sum(p, m, 3real);
}

/// Red, green and blue of a colour: what its saturation leaves of its brightness, and of the
/// rest the part that its hue gives each of them. The hue counts once around the wheel from
/// red over yellow, green, cyan, blue and magenta; whole turns do not count.
pub proof fn lemma_rgb_value(h: Single, s: Single, v: Single, turns: int)
    requires
        h.is_finite(),
        !h.negative(),
        in_unit(s),
        in_unit(v),
        0 <= turns,
        turns as real <= value(h),
        value(h) < turns as real + 1real,
    ensures
        ({
            let p: real = (value(h) - turns as real) * 6real;
            let c: real = value(v) * value(s);
            let (r, g, b) = pure_parts(p);
            &&& near(value(rgb(h, s, v).0), (value(v) - c) + c * r, 1real / 100000real)
            &&& near(value(rgb(h, s, v).1), (value(v) - c) + c * g, 1real / 100000real)
            &&& near(value(rgb(h, s, v).2), (value(v) - c) + c * b, 1real / 100000real)
        }),
{
    let two = Single { bits: TWO };
    let six = Single { bits: SIX };
    lemma_one();
    lemma_unit_value(s);
    lemma_unit_value(v);
    lemma_whole_constants();
    lemma_value_whole(six, 6);
    lemma_value_whole(two, 2);
    // The place on the wheel.
    let k: int = lemma_remainder_value(h, one(), 1);
    assert(k == turns);
    let t = frem_euclid(h, one());
    assert(t == frem(h, one())) by {
        lemma_value_order(t, zero());
    }
    let x: real = value(h) - turns as real;
    let p: real = x * 6real;
    lemma_product(t, six, 7real);
    let place = wheel(h);
    let w: real = value(place);
    assert(near(w, p, 1real / 1000000real));
    lemma_wheel(h);
    lemma_wheel_sign(h);
    lemma_value_order(zero(), place);
    // The second strength.
    let j: int = lemma_remainder_value(place, two, 2);
    let rem = frem(place, two);
    let e: real = w - (j * 2) as real;
    lemma_difference(rem, one(), 2real);
    let d = fsub(rem, one());
    let a = fabs(d);
    lemma_value_abs(d);
    lemma_difference(one(), a, 2real);
    let f = fsub(one(), a);
    lemma_second_factor(place);
    lemma_unit_value(f);
    assert(near(value(f), 1real - gap(e, 1real), 1real / 2000000real));
    // Strength and rest.
    let cr: real = value(v) * value(s);
    lemma_times_same(value(s), 1real, value(v));
    lemma_times_same(0real, value(s), value(v));
    lemma_spread(0real, 0real, value(v));
    lemma_spread(value(v), 0real, value(s));
    lemma_product(v, s, 1real);
    let c = fmul(v, s);
    lemma_difference(v, c, 2real);
    let m = fsub(v, c);
    // Which part is which.
    lemma_whole_marks();
    lemma_value_order(place, one());
    lemma_value_order(place, two);
    lemma_value_order(place, Single { bits: THREE });
    lemma_value_order(place, Single { bits: FOUR });
    lemma_value_order(place, Single { bits: FIVE });
    let (r, g, b) = pure_parts(p);
    let xs = fmul(c, f);
    let fr: real = 1real - gap(e, 1real);
    lemma_part_value(c, m, f, xs, value(s), value(v), unit_part(fr));
    lemma_mul_one(c);
    lemma_part_value(c, m, one(), c, value(s), value(v), 1real);
    lemma_part_value_none(m, value(s), value(v));
    lemma_scaled(cr, r, unit_part(fr));
    lemma_scaled(cr, g, unit_part(fr));
    lemma_scaled(cr, b, unit_part(fr));
    lemma_scaled(cr, r, 1real);
    lemma_scaled(cr, g, 1real);
    lemma_scaled(cr, b, 1real);
    lemma_scaled(cr, r, 0real);
    lemma_scaled(cr, g, 0real);
    lemma_scaled(cr, b, 0real);
    lemma_spread(0real, 0real, cr);
    lemma_spread(cr, 0real, 0real);
    lemma_spread(cr, 0real, 1real);
    if w < 1real {
        assert(j == 0);
        assert(near(r, 1real, 1real / 200000real));
        assert(near(g, unit_part(fr), 1real / 200000real));
        assert(near(b, 0real, 1real / 200000real));
    } else if w < 2real {
        assert(j == 0);
        assert(near(r, unit_part(fr), 1real / 200000real));
        assert(near(g, 1real, 1real / 200000real));
        assert(near(b, 0real, 1real / 200000real));
    } else if w < 3real {
        assert(j == 1);
        assert(near(r, 0real, 1real / 200000real));
        assert(near(g, 1real, 1real / 200000real));
        assert(near(b, unit_part(fr), 1real / 200000real));
    } else if w < 4real {
        assert(j == 1);
        assert(near(r, 0real, 1real / 200000real));
        assert(near(g, unit_part(fr), 1real / 200000real));
        assert(near(b, 1real, 1real / 200000real));
    } else if w < 5real {
        assert(j == 2);
        assert(near(r, unit_part(fr), 1real / 200000real));
        assert(near(g, 0real, 1real / 200000real));
        assert(near(b, 1real, 1real / 200000real));
    } else {
        assert(j == 2 || j == 3);
        assert(near(r, 1real, 1real / 200000real));
        assert(near(g, 0real, 1real / 200000real));
        assert(near(b, unit_part(fr), 1real / 200000real));
    }
}

/// A strength times parts that are near one another.
proof fn lemma_scaled(c: real, a: real, b: real)
    requires
        0real <= c <= 1real,
    ensures
        near(a, b, 1real / 200000real) ==> near(c * a, c * b, 1real / 200000real),
{
    if near(a, b, 1real / 200000real) {
        lemma_spread(a, b, c);
        lemma_spread(a, 0real, c);
        lemma_spread(b, 0real, c);
        lemma_times_same(a - b, 1real / 200000real, c);
        lemma_times_same(b - a, 1real / 200000real, c);
        lemma_spread(b, a, c);
        lemma_times_same(c, 1real, 1real / 200000real);
        lemma_spread(c, 0real, 1real / 200000real);
    }
}

/// A part of a colour that adds nothing.
proof fn lemma_part_value_none(m: Single, s: real, v: real)
    requires
        m.is_finite(),
        0real <= v - v * s <= 1real,
        near(value(m), v - v * s, 1real / 4000000real),
    ensures
        fadd(zero(), m).is_finite(),
        near(value(fadd(zero(), m)), v - v * s, 1real / 300000real),
{
    lemma_unit_value(one());
    lemma_magnitude_zero();
    lemma_sum(zero(), m, 2real);
}

/// The marks on the wheel.
proof fn lemma_whole_marks()
    ensures
        value(Single { bits: THREE }) == 3real,
        value(Single { bits: FOUR }) == 4real,
        value(Single { bits: FIVE }) == 5real,
{
    lemma2_to64();
    lemma_value_bits(Single { bits: THREE }, 22);
    assert(value(Single { bits: THREE }) * 4194304real == 12582912real);
    lemma_value_bits(Single { bits: FOUR }, 21);
    assert(value(Single { bits: FOUR }) * 2097152real == 8388608real);
    lemma_value_bits(Single { bits: FIVE }, 21);
    assert(value(Single { bits: FIVE }) * 2097152real == 10485760real);
}

/// The size of a number, as a value.
proof fn lemma_value_abs(x: Single)
    requires
        x.is_finite(),
    ensures
        fabs(x).is_finite(),
        value(fabs(x)) == (if value(x) < 0real {
            -value(x)
        } else {
            value(x)
        }),
{
    lemma_unit_value(one());
    lemma_value_opposite(x);
    lemma_order(zero(), x);
    lemma_order(x, zero());
    lemma_value_order(zero(), x);
    lemma_value_order(x, zero());
    lemma_magnitude_zero();
    if x.negative() {
        assert(fabs(x) == fneg(x));
    } else {
        assert(fabs(x) == x);
    }
}

/// The place of a hue that is not negative has no sign.
proof fn lemma_wheel_sign(h: Single)
    requires
        h.is_finite(),
        !h.negative(),
    ensures
        !wheel(h).negative(),
{
    lemma_one();
    lemma_remainder(h, one());
    lemma_whole_constants();
    reveal(fmul);
    let t = frem_euclid(h, one());
    assert(t == frem(h, one()));
    assert(!t.negative() && t.is_finite());
}

/// A colour with hardly any saturation, up to 0.0001, is a grey of its brightness; any other
/// is as without this rule.
pub proof fn lemma_grey_value(h: Single, s: Single, v: Single)
    requires
        s.is_finite(),
    ensures
        value(s) < 1real / 10000real - 1real / 1000000000real ==> rgb_or_grey(h, s, v) == (v, v, v),
        value(s) > 1real / 10000real + 1real / 1000000000real ==> rgb_or_grey(h, s, v) == rgb(
            h,
            s,
            v,
        ),
{
    let grey = Single { bits: GREY };
    lemma2_to64_rest();
    lemma_value_bits(grey, 37);
    assert(value(grey) * 137438953472real == 13743895real);
    lemma_value_order(s, grey);
}

} // verus!
