//! What prepared masks show of the pictures they are made from.
use crate::edt::{
    apart, exactly_measurable, far, has_outside, is_nearest_outside, lemma_all_inside_is_even,
    lemma_squared_distance_is_exact, lemma_unplace, squared_at,
};
use crate::mask::{
    channel, deepest, distance_field, inside_mask, is_prepared, mask_value, pixel_value,
    prepared_pixel, relative_depth, to_byte, BLUE_WEIGHT, FULL, GREEN_WEIGHT, HALF, RED_WEIGHT,
};
use crate::reals::{
    lemma_group, lemma_near_product, lemma_near_square, lemma_over, lemma_part, lemma_real_product,
    lemma_spread, lemma_times, lemma_times_same,
};
use crate::rounding::{
    lemma_magnitude_monotone, lemma_round_exact, lemma_round_monotone, magnitude, round_bits,
};
use crate::single::{fadd, fclamp, fdiv, fle, flt, fmul, from_int, fsqrt, to_int, zero, Single};
use crate::single_facts::{
    bounded, is_whole, lemma_bounded_larger, lemma_bounded_product, lemma_bounded_sum,
    lemma_from_int, lemma_magnitude_zero, lemma_order, lemma_signed, lemma_whole_size,
};
use crate::single_order::{
    in_unit, lemma_add_order, lemma_bounded_bits, lemma_clamp_unit, lemma_div_order, lemma_div_self,
    lemma_from_int_order, lemma_max, lemma_mul_one, lemma_mul_order, lemma_mul_zero, lemma_one,
    lemma_round_little_above_one, lemma_to_int_order, lemma_unit_bounded, lemma_zero_over, one,
};
use crate::single_roots::{lemma_root_order, lemma_root_range};
use crate::values::{
    lemma_from_int_value, lemma_product, lemma_quotient, lemma_root, lemma_sum, lemma_to_int_value,
    lemma_unit_value, lemma_value_bits, lemma_value_order, lemma_value_whole, near, slack, tiny,
    value,
};
use vstd::arithmetic::div_mod::lemma_div_multiples_vanish;
use vstd::arithmetic::power2::{lemma2_to64, lemma_pow2_adds, lemma_pow2_pos, pow2};
use vstd::prelude::*;

verus! {

/// The number 255 is the whole number 255.
proof fn lemma_full()
    ensures
        is_whole(Single { bits: FULL }, 255),
        bounded(Single { bits: FULL }, 8),
        !(Single { bits: FULL }).negative(),
        flt(zero(), Single { bits: FULL }),
{
    lemma2_to64();
    lemma_pow2_adds(16, 133);
    assert(magnitude(FULL as nat) == 0xff_0000 * pow2(133));
    lemma_bounded_bits(Single { bits: FULL }, 8);
}

/// Channels are numbers from zero to one, in the order of their bytes; a channel of zero
/// is zero.
proof fn lemma_channel(v: u8, w: u8)
    requires
        v <= w,
    ensures
        in_unit(channel(v)),
        in_unit(channel(w)),
        fle(channel(v), channel(w)),
        channel(0) == zero(),
{
    let full = Single { bits: FULL };
    lemma_full();
    lemma_from_int(0);
    lemma_from_int(v as int);
    lemma_from_int(w as int);
    lemma_whole_size(from_int(0), 0);
    lemma_from_int_order(0, v as int);
    lemma_from_int_order(v as int, w as int);
    lemma_order(from_int(w as int), full);
    assert(w * pow2(149) <= 255 * pow2(149)) by (nonlinear_arith)
        requires
            w <= 255,
    ;
    lemma_div_order(from_int(v as int), from_int(w as int), full);
    lemma_div_order(from_int(w as int), full, full);
    lemma_div_self(full);
    assert(from_int(0) == zero());
    lemma_zero_over(full);
}

/// A weighted channel.
proof fn lemma_weighted(weight: Single, v: u8, w: u8)
    requires
        v <= w,
        bounded(weight, 0),
        !weight.negative(),
    ensures
        fle(zero(), fmul(weight, channel(v))),
        fle(fmul(weight, channel(v)), fmul(weight, channel(w))),
        bounded(fmul(weight, channel(v)), 0),
        bounded(fmul(weight, channel(w)), 0),
{
    lemma_channel(v, w);
    lemma_unit_bounded(channel(v));
    lemma_unit_bounded(channel(w));
    lemma_mul_order(channel(v), channel(w), weight);
    lemma_bounded_product(weight, channel(v), 0, 0);
    lemma_bounded_product(weight, channel(w), 0, 0);
}

/// A sum of numbers that are not negative is not negative either.
proof fn lemma_sum_order(x: Single, y: Single, v: Single, w: Single, e: nat)
    requires
        bounded(x, e),
        bounded(y, e),
        bounded(v, e),
        bounded(w, e),
        e <= 100,
        fle(zero(), x),
        fle(zero(), v),
        fle(x, y),
        fle(v, w),
    ensures
        fle(zero(), fadd(x, v)),
        fle(fadd(x, v), fadd(y, w)),
        bounded(fadd(x, v), e + 1),
        bounded(fadd(y, w), e + 1),
{
    lemma_add_order(x, y, v);
    lemma_add_order(v, w, y);
    lemma_bounded_sum(x, v, e);
    lemma_bounded_sum(y, w, e);
    lemma_order(zero(), x);
    lemma_order(zero(), v);
    lemma_magnitude_zero();
    assert(fle(zero(), fadd(x, v))) by {
        reveal(fadd);
        lemma_round_exact(0, 1);
    }
}

/// A brighter or more opaque pixel has no smaller mask value, and none is negative.
pub proof fn lemma_mask_value_order(
    r: u8,
    g: u8,
    b: u8,
    a: u8,
    r2: u8,
    g2: u8,
    b2: u8,
    a2: u8,
)
    requires
        r <= r2,
        g <= g2,
        b <= b2,
        a <= a2,
    ensures
        fle(zero(), mask_value(r, g, b, a)),
        fle(mask_value(r, g, b, a), mask_value(r2, g2, b2, a2)),
        mask_value(r2, g2, b2, a2).is_finite(),
{
    let wr = Single { bits: RED_WEIGHT };
    let wg = Single { bits: GREEN_WEIGHT };
    let wb = Single { bits: BLUE_WEIGHT };
    lemma_bounded_bits(wr, 0);
    lemma_bounded_bits(wg, 0);
    lemma_bounded_bits(wb, 0);
    lemma_weighted(wr, r, r2);
    lemma_weighted(wg, g, g2);
    lemma_weighted(wb, b, b2);
    let x = fmul(wr, channel(r));
    let x2 = fmul(wr, channel(r2));
    let y = fmul(wg, channel(g));
    let y2 = fmul(wg, channel(g2));
    let z = fmul(wb, channel(b));
    let z2 = fmul(wb, channel(b2));
    lemma_sum_order(x, x2, y, y2, 0);
    lemma_bounded_larger(z, 0, 1);
    lemma_bounded_larger(z2, 0, 1);
    lemma_sum_order(fadd(x, y), fadd(x2, y2), z, z2, 1);
    let l = fadd(fadd(x, y), z);
    let l2 = fadd(fadd(x2, y2), z2);
    lemma_channel(a, a2);
    lemma_unit_bounded(channel(a));
    lemma_unit_bounded(channel(a2));
    lemma_mul_order(l, l2, channel(a));
    lemma_mul_order(channel(a), channel(a2), l2);
    lemma_bounded_product(l2, channel(a2), 2, 0);
}

/// A transparent pixel has the mask value zero and is not inside.
pub proof fn lemma_transparent_is_outside(rgba: Seq<u8>, i: int, n: nat)
    requires
        0 <= i < n,
        rgba[4 * i + 3] == 0,
    ensures
        pixel_value(rgba, i) == zero(),
        to_byte(pixel_value(rgba, i)) == 0,
        !inside_mask(rgba, n)[i],
{
    let r: u8 = rgba[4 * i];
    let g: u8 = rgba[4 * i + 1];
    let b: u8 = rgba[4 * i + 2];
    let l = fadd(
        fadd(
            fmul(Single { bits: RED_WEIGHT }, channel(r)),
            fmul(Single { bits: GREEN_WEIGHT }, channel(g)),
        ),
        fmul(Single { bits: BLUE_WEIGHT }, channel(b)),
    );
    lemma_channel(0, 0);
    lemma_luminance(r, g, b);
    lemma_mul_zero(l, zero());
    lemma_byte_of_zero(zero());
}

/// The luminance is a number that is not negative.
proof fn lemma_luminance(r: u8, g: u8, b: u8)
    ensures
        ({
            let l = fadd(
                fadd(
                    fmul(Single { bits: RED_WEIGHT }, channel(r)),
                    fmul(Single { bits: GREEN_WEIGHT }, channel(g)),
                ),
                fmul(Single { bits: BLUE_WEIGHT }, channel(b)),
            );
            l.is_finite() && !l.negative()
        }),
{
    let wr = Single { bits: RED_WEIGHT };
    let wg = Single { bits: GREEN_WEIGHT };
    let wb = Single { bits: BLUE_WEIGHT };
    lemma_bounded_bits(wr, 0);
    lemma_bounded_bits(wg, 0);
    lemma_bounded_bits(wb, 0);
    lemma_channel(r, r);
    lemma_channel(g, g);
    lemma_channel(b, b);
    lemma_unit_bounded(channel(r));
    lemma_unit_bounded(channel(g));
    lemma_unit_bounded(channel(b));
    lemma_channel_sign(r);
    lemma_channel_sign(g);
    lemma_channel_sign(b);
    lemma_bounded_product(wr, channel(r), 0, 0);
    lemma_bounded_product(wg, channel(g), 0, 0);
    lemma_bounded_product(wb, channel(b), 0, 0);
    lemma_bounded_sum(fmul(wr, channel(r)), fmul(wg, channel(g)), 0);
    lemma_bounded_larger(fmul(wb, channel(b)), 0, 1);
    lemma_bounded_sum(
        fadd(fmul(wr, channel(r)), fmul(wg, channel(g))),
        fmul(wb, channel(b)),
        1,
    );
}

proof fn lemma_channel_sign(v: u8)
    ensures
        !channel(v).negative(),
{
    reveal(fdiv);
    lemma_full();
    lemma_from_int(v as int);
    lemma_from_int_order(0, v as int);
}

/// Bytes keep the order of numbers.
pub proof fn lemma_byte_order(x: Single, y: Single)
    requires
        fle(x, y),
    ensures
        to_byte(x) <= to_byte(y),
{
    let full = Single { bits: FULL };
    let a = fclamp(x, zero(), one());
    let b = fclamp(y, zero(), one());
    lemma_clamp_unit(x);
    lemma_clamp_unit(y);
    lemma_unit_bounded(a);
    lemma_unit_bounded(b);
    lemma_full();
    lemma_mul_order(a, b, full);
    lemma_bounded_product(a, full, 0, 8);
    lemma_bounded_product(b, full, 0, 8);
    lemma_to_int_order(fmul(a, full), fmul(b, full), 0, 255);
}

proof fn lemma_byte_of_zero(x: Single)
    requires
        x.is_zero(),
    ensures
        to_byte(x) == 0,
{
    let full = Single { bits: FULL };
    lemma_full();
    lemma_mul_zero(x, full);
    lemma_magnitude_zero();
    lemma_pow2_pos(149);
    assert(to_int(fmul(x, full), 0, 255) == 0) by {
        reveal(to_int);
        vstd::arithmetic::div_mod::lemma_div_basics(pow2(149) as int);
    }
}

/// White has the luminance one.
proof fn lemma_white()
    ensures
        ({
            let l = fadd(
                fadd(Single { bits: RED_WEIGHT }, Single { bits: GREEN_WEIGHT }),
                Single { bits: BLUE_WEIGHT },
            );
            fle(l, one()) && l.is_finite()
        }),
{
    reveal(fadd);
    let wr = Single { bits: RED_WEIGHT };
    let wg = Single { bits: GREEN_WEIGHT };
    let wb = Single { bits: BLUE_WEIGHT };
    lemma2_to64();
    lemma_one();
    lemma_pow2_pos(121);
    lemma_pow2_adds(1, 121);
    lemma_pow2_adds(3, 121);
    lemma_pow2_adds(4, 121);
    lemma_pow2_adds(28, 121);
    assert(magnitude(RED_WEIGHT as nat) == 0x99_1687 * pow2(124));
    assert(magnitude(GREEN_WEIGHT as nat) == 0x96_45a2 * pow2(125));
    assert(magnitude(BLUE_WEIGHT as nat) == 0xe9_78d5 * pow2(122));
    // Red and green make at most 0xe2d0e6 * 2^125 units.
    let b: nat = 0x3f62_d0e6;
    assert(magnitude(b) == 0xe2_d0e6 * pow2(125));
    let n: nat = (wr.units() + wg.units()) as nat;
    lemma_round_exact(b, 1);
    lemma_round_monotone(n, 1, magnitude(b), 1);
    let r: nat = round_bits(n, 1);
    lemma_signed(false, r);
    if r < b {
        lemma_magnitude_monotone(r, b);
    }
    // With blue they are above one by less than half a step.
    let t: nat = magnitude(r) + magnitude(BLUE_WEIGHT as nat);
    assert(t < pow2(149) + pow2(125));
    lemma_round_little_above_one(t);
    lemma_signed(false, round_bits(t, 1));
}

/// Mask values are numbers from zero to one.
pub proof fn lemma_mask_value_in_unit(r: u8, g: u8, b: u8, a: u8)
    ensures
        in_unit(mask_value(r, g, b, a)),
{
    lemma_mask_value_order(r, g, b, a, 255, 255, 255, 255);
    let full = Single { bits: FULL };
    lemma_full();
    lemma_from_int(255);
    lemma_whole_size(full, 255);
    lemma_whole_size(from_int(255), 255);
    assert(channel(255) == one()) by {
        let x = from_int(255);
        if x.unsigned() < full.unsigned() {
            lemma_magnitude_monotone(x.unsigned(), full.unsigned());
        } else if full.unsigned() < x.unsigned() {
            lemma_magnitude_monotone(full.unsigned(), x.unsigned());
        }
        assert(x == full);
        lemma_div_self(full);
    }
    lemma_bounded_bits(Single { bits: RED_WEIGHT }, 0);
    lemma_bounded_bits(Single { bits: GREEN_WEIGHT }, 0);
    lemma_bounded_bits(Single { bits: BLUE_WEIGHT }, 0);
    lemma_mul_one(Single { bits: RED_WEIGHT });
    lemma_mul_one(Single { bits: GREEN_WEIGHT });
    lemma_mul_one(Single { bits: BLUE_WEIGHT });
    lemma_white();
    lemma_mul_one(
        fadd(
            fadd(Single { bits: RED_WEIGHT }, Single { bits: GREEN_WEIGHT }),
            Single { bits: BLUE_WEIGHT },
        ),
    );
}

/// The numbers of `d` are distances: zero, or between one and 2^13.
pub open spec fn are_distances(d: Seq<Single>) -> bool {
    forall|i: int|
        0 <= i < d.len() ==> bounded(#[trigger] d[i], 13) && !d[i].negative() && (d[i].is_zero()
            || fle(one(), d[i]))
}

/// The distance that goes with a whole squared one.
proof fn lemma_root_of_whole(x: Single, m: int)
    requires
        is_whole(x, m),
        !x.negative(),
        0 <= m <= 0x100_0000,
    ensures
        bounded(fsqrt(x), 13),
        !fsqrt(x).negative(),
        fsqrt(x).is_zero() <==> m == 0,
        m > 0 ==> fle(one(), fsqrt(x)),
{
    lemma_whole_size(x, m);
    lemma_one();
    if m == 0 {
        assert(fsqrt(x) == x) by {
            reveal(fsqrt);
        }
        lemma_magnitude_zero();
        lemma_pow2_pos(162);
    } else {
        lemma2_to64();
        lemma_pow2_adds(24, 149);
        lemma_order(one(), x);
        assert(pow2(149) <= m * pow2(149) && m * pow2(149) <= 0x100_0000 * pow2(149))
            by (nonlinear_arith)
            requires
                1 <= m <= 0x100_0000,
        ;
        lemma_root_range(x);
    }
}

/// The squared distance of each pixel, and the distance.
proof fn lemma_distance(inside: Seq<bool>, w: nat, h: nat, i: int) -> (m: int)
    requires
        exactly_measurable(w, h),
        has_outside(inside, w, h),
        0 <= i < w * h,
    ensures
        is_nearest_outside(inside, w, h, i, m),
        0 <= m <= 0x100_0000,
        is_whole(squared_at(inside, w, h, i % (w as int), i / (w as int)), m),
        !squared_at(inside, w, h, i % (w as int), i / (w as int)).negative(),
{
    lemma_squared_distance_is_exact(inside, w, h, i);
    let x: int = i % (w as int);
    let y: int = i / (w as int);
    let m: int = choose|m: int|
        #[trigger] is_nearest_outside(inside, w, h, i, m) && is_whole(
            squared_at(inside, w, h, x, y),
            m,
        );
    let j: int = choose|j: int| 0 <= j < w * h && !inside[j] && m == #[trigger] apart(w, i, j);
    lemma_unplace(w, h, i);
    lemma_unplace(w, h, j);
    let dx: int = x - j % (w as int);
    let dy: int = y - j / (w as int);
    assert(0 <= dx * dx <= (w - 1) * (w - 1)) by (nonlinear_arith)
        requires
            -(w - 1) <= dx <= w - 1,
    ;
    assert(0 <= dy * dy <= (h - 1) * (h - 1)) by (nonlinear_arith)
        requires
            -(h - 1) <= dy <= h - 1,
    ;
    m
}

/// The distances of a mask that has an outside.
proof fn lemma_field(rgba: Seq<u8>, w: nat, h: nat)
    requires
        exactly_measurable(w, h),
        has_outside(inside_mask(rgba, w * h), w, h),
    ensures
        are_distances(distance_field(rgba, w, h)),
        forall|i: int|
            0 <= i < w * h ==> #[trigger] distance_field(rgba, w, h)[i] == fsqrt(
                squared_at(inside_mask(rgba, w * h), w, h, i % (w as int), i / (w as int)),
            ),
{
    let inside = inside_mask(rgba, w * h);
    let d = distance_field(rgba, w, h);
    assert forall|i: int| 0 <= i < d.len() implies bounded(#[trigger] d[i], 13) && !d[i].negative()
        && (d[i].is_zero() || fle(one(), d[i])) && d[i] == fsqrt(
        squared_at(inside, w, h, i % (w as int), i / (w as int)),
    ) by {
        lemma_unplace(w, h, i);
        let m: int = lemma_distance(inside, w, h, i);
        let x = squared_at(inside, w, h, i % (w as int), i / (w as int));
        lemma_root_of_whole(x, m);
        if !inside[i] {
            lemma_apart_itself(w, i);
            assert(m <= apart(w, i, i));
        }
    }
}

/// A pixel is nowhere but where it is.
proof fn lemma_apart_itself(w: nat, i: int)
    ensures
        apart(w, i, i) == 0,
{
    assert(apart(w, i, i) == 0) by (nonlinear_arith)
        requires
            apart(w, i, i) == (i % (w as int) - i % (w as int)) * (i % (w as int) - i % (w as int))
                + (i / (w as int) - i / (w as int)) * (i / (w as int) - i / (w as int)),
    ;
}

/// The largest distance is one of them, or zero, and none is larger.
proof fn lemma_deepest(d: Seq<Single>)
    requires
        are_distances(d),
    ensures
        bounded(deepest(d), 13),
        !deepest(d).negative(),
        deepest(d).is_zero() || fle(one(), deepest(d)),
        deepest(d).is_zero() || exists|j: int| 0 <= j < d.len() && deepest(d) == #[trigger] d[j],
        forall|i: int| 0 <= i < d.len() ==> fle(#[trigger] d[i], deepest(d)),
    decreases d.len(),
{
    if d.len() == 0 {
        lemma_magnitude_zero();
        lemma_pow2_pos(162);
    } else {
        let rest = d.drop_last();
        assert(forall|i: int| 0 <= i < rest.len() ==> #[trigger] rest[i] == d[i]);
        lemma_deepest(rest);
        assert(bounded(d[d.len() - 1], 13));
        lemma_max(deepest(rest), d.last());
        if !deepest(d).is_zero() {
            if deepest(d) == d.last() {
                assert(deepest(d) == d[d.len() - 1]);
            } else {
                let j: int = choose|j: int|
                    0 <= j < rest.len() && deepest(rest) == #[trigger] rest[j];
                assert(deepest(d) == d[j]);
            }
        }
        assert forall|i: int| 0 <= i < d.len() implies fle(#[trigger] d[i], deepest(d)) by {
            if i < rest.len() {
                assert(fle(rest[i], deepest(rest)));
            }
        }
    }
}

/// A pixel that is not inside has a distance and a green of zero, whatever the size of the
/// mask.
pub proof fn lemma_outside_is_shallow(rgba: Seq<u8>, w: nat, h: nat, i: int)
    requires
        0 <= i < w * h,
        !inside_mask(rgba, w * h)[i],
    ensures
        distance_field(rgba, w, h)[i] == zero(),
        to_byte(relative_depth(distance_field(rgba, w, h), i)) == 0,
{
    let top = deepest(distance_field(rgba, w, h));
    lemma_unplace(w, h, i);
    if top.is_finite() && flt(zero(), top) {
        lemma_zero_over(top);
    }
    assert(flt(zero(), top) ==> fdiv(zero(), top) == zero()) by {
        reveal(fdiv);
    }
    lemma_byte_of_zero(zero());
}

/// Of two pixels, the one farther from the nearest pixel that is not inside has no
/// smaller green.
pub proof fn lemma_deeper_is_brighter(
    rgba: Seq<u8>,
    w: nat,
    h: nat,
    i: int,
    j: int,
    m: int,
    n: int,
)
    requires
        exactly_measurable(w, h),
        0 <= i < w * h,
        0 <= j < w * h,
        is_nearest_outside(inside_mask(rgba, w * h), w, h, i, m),
        is_nearest_outside(inside_mask(rgba, w * h), w, h, j, n),
        m <= n,
    ensures
        to_byte(relative_depth(distance_field(rgba, w, h), i)) <= to_byte(
            relative_depth(distance_field(rgba, w, h), j),
        ),
{
    let inside = inside_mask(rgba, w * h);
    let d = distance_field(rgba, w, h);
    let k: int = choose|k: int| 0 <= k < w * h && !inside[k] && m == #[trigger] apart(w, i, k);
    assert(has_outside(inside, w, h));
    let m2: int = lemma_distance(inside, w, h, i);
    let n2: int = lemma_distance(inside, w, h, j);
    lemma_nearest_unique(inside, w, h, i, m, m2);
    lemma_nearest_unique(inside, w, h, j, n, n2);
    let x = squared_at(inside, w, h, i % (w as int), i / (w as int));
    let y = squared_at(inside, w, h, j % (w as int), j / (w as int));
    assert(m * pow2(149) <= n * pow2(149)) by (nonlinear_arith)
        requires
            m <= n,
    ;
    lemma_order(x, y);
    lemma_root_order(x, y);
    lemma_field(rgba, w, h);
    lemma_deepest(d);
    if flt(zero(), deepest(d)) {
        lemma_div_order(d[i], d[j], deepest(d));
    }
    lemma_byte_order(relative_depth(d, i), relative_depth(d, j));
}

proof fn lemma_nearest_unique(inside: Seq<bool>, w: nat, h: nat, i: int, m: int, n: int)
    requires
        is_nearest_outside(inside, w, h, i, m),
        is_nearest_outside(inside, w, h, i, n),
    ensures
        m == n,
{
    let j: int = choose|j: int| 0 <= j < w * h && !inside[j] && m == #[trigger] apart(w, i, j);
    let k: int = choose|k: int| 0 <= k < w * h && !inside[k] && n == #[trigger] apart(w, i, k);
    assert(m <= apart(w, i, k) && n <= apart(w, i, j));
}

/// One is the full byte.
proof fn lemma_byte_of_one()
    ensures
        to_byte(one()) == 255,
{
    let full = Single { bits: FULL };
    lemma_full();
    lemma_mul_one(full);
    lemma_whole_size(full, 255);
    lemma_pow2_pos(149);
    assert(to_int(full, 0, 255) == 255) by {
        reveal(to_int);
        lemma_div_multiples_vanish(255, pow2(149) as int);
    }
}

/// Whatever the size of the mask: a pixel of the largest distance, where that is above
/// zero, has a full green.
pub proof fn lemma_largest_is_full(d: Seq<Single>, i: int)
    requires
        d[i] == deepest(d),
        d[i].is_finite(),
        flt(zero(), d[i]),
    ensures
        relative_depth(d, i) == one(),
        to_byte(relative_depth(d, i)) == 255,
{
    lemma_div_self(d[i]);
    lemma_byte_of_one();
}

/// The pixel farthest from the nearest one that is not inside has a full green.
pub proof fn lemma_deepest_is_full(rgba: Seq<u8>, w: nat, h: nat, i: int, m: int)
    requires
        exactly_measurable(w, h),
        0 <= i < w * h,
        is_nearest_outside(inside_mask(rgba, w * h), w, h, i, m),
        m > 0,
        forall|j: int, n: int|
            0 <= j < w * h && #[trigger] is_nearest_outside(
                inside_mask(rgba, w * h),
                w,
                h,
                j,
                n,
            ) ==> n <= m,
    ensures
        to_byte(relative_depth(distance_field(rgba, w, h), i)) == 255,
{
    let inside = inside_mask(rgba, w * h);
    let d = distance_field(rgba, w, h);
    let k: int = choose|k: int| 0 <= k < w * h && !inside[k] && m == #[trigger] apart(w, i, k);
    assert(has_outside(inside, w, h));
    let m2: int = lemma_distance(inside, w, h, i);
    lemma_nearest_unique(inside, w, h, i, m, m2);
    let x = squared_at(inside, w, h, i % (w as int), i / (w as int));
    lemma_root_of_whole(x, m);
    lemma_field(rgba, w, h);
    lemma_deepest(d);
    let top = deepest(d);
    assert(fle(d[i], top));
    lemma_one();
    let j: int = choose|j: int| 0 <= j < d.len() && top == #[trigger] d[j];
    let n: int = lemma_distance(inside, w, h, j);
    assert(n <= m);
    let y = squared_at(inside, w, h, j % (w as int), j / (w as int));
    assert(n * pow2(149) <= m * pow2(149)) by (nonlinear_arith)
        requires
            n <= m,
    ;
    lemma_order(y, x);
    lemma_root_order(y, x);
    assert(top == d[i]);
    lemma_largest_is_full(d, i);
}

/// Green depends only on which pixels are inside: two pictures of the same size with the
/// same pixels inside have the same distances, and so the same green everywhere.
pub proof fn lemma_green_follows_inside(p: Seq<u8>, q: Seq<u8>, w: nat, h: nat)
    requires
        inside_mask(p, w * h) == inside_mask(q, w * h),
    ensures
        distance_field(p, w, h) == distance_field(q, w, h),
        forall|i: int|
            0 <= i < w * h ==> #[trigger] to_byte(relative_depth(distance_field(p, w, h), i))
                == to_byte(relative_depth(distance_field(q, w, h), i)),
{
    assert(distance_field(p, w, h) =~= distance_field(q, w, h));
}

/// Where no pixel is inside, green is zero everywhere, whatever the size of the mask.
pub proof fn lemma_nothing_inside_is_shallow(rgba: Seq<u8>, w: nat, h: nat)
    requires
        forall|i: int| 0 <= i < w * h ==> !(#[trigger] inside_mask(rgba, w * h)[i]),
    ensures
        forall|i: int|
            0 <= i < w * h ==> #[trigger] to_byte(relative_depth(distance_field(rgba, w, h), i))
                == 0,
{
    assert forall|i: int| 0 <= i < w * h implies #[trigger] to_byte(
        relative_depth(distance_field(rgba, w, h), i),
    ) == 0 by {
        assert(!inside_mask(rgba, w * h)[i]);
        lemma_outside_is_shallow(rgba, w, h, i);
    }
}

/// The distance of a pixel that is not nothing, as a real: its square is the squared
/// distance, up to rounding.
proof fn lemma_distance_value(rgba: Seq<u8>, w: nat, h: nat, i: int, m: int)
    requires
        exactly_measurable(w, h),
        0 <= i < w * h,
        is_nearest_outside(inside_mask(rgba, w * h), w, h, i, m),
    ensures
        ({
            let d = distance_field(rgba, w, h)[i];
            let a: real = value(d);
            &&& d.is_finite()
            &&& !d.negative()
            &&& 0 <= m <= 0x100_0000
            &&& m == 0 ==> d.is_zero()
            &&& m > 0 ==> !d.is_zero() && 1real <= a <= 8192real
            &&& m > 0 ==> near(m as real, a * a, (a * a) / 4194304real)
        }),
{
    let inside = inside_mask(rgba, w * h);
    let d = distance_field(rgba, w, h)[i];
    let k: int = choose|k: int| 0 <= k < w * h && !inside[k] && m == #[trigger] apart(w, i, k);
    assert(has_outside(inside, w, h));
    let m2: int = lemma_distance(inside, w, h, i);
    lemma_nearest_unique(inside, w, h, i, m, m2);
    let x = squared_at(inside, w, h, i % (w as int), i / (w as int));
    lemma_field(rgba, w, h);
    lemma_root_of_whole(x, m);
    assert(d == fsqrt(x));
    if m > 0 {
        lemma_whole_size(x, m);
        lemma_value_whole(x, m);
        lemma_root(x);
        lemma_unit_value(one());
        lemma_value_order(one(), d);
        // At most 2^13.
        let top = Single { bits: 0x4600_0000 };
        lemma2_to64();
        lemma_value_bits(top, 10);
        assert(value(top) * 1024real == 8388608real);
        lemma_pow2_adds(23, 139);
        assert(magnitude(0x4600_0000) == 0x80_0000 * pow2(139));
        lemma_order(d, top);
        lemma_value_order(d, top);
    }
}

/// The distance from the edge that the transform gives each pixel inside the mask is the
/// root of the squared distance to the nearest pixel that is not inside, up to rounding.
pub proof fn lemma_distance_is_root(rgba: Seq<u8>, w: nat, h: nat, i: int, m: int)
    requires
        exactly_measurable(w, h),
        0 <= i < w * h,
        is_nearest_outside(inside_mask(rgba, w * h), w, h, i, m),
        m > 0,
    ensures
        ({
            let a: real = value(distance_field(rgba, w, h)[i]);
            1real <= a && near(m as real, a * a, (a * a) / 4194304real)
        }),
{
    lemma_distance_value(rgba, w, h, i, m);
}

/// A number from zero to one as a byte: the whole part of 255 times it, up to rounding.
proof fn lemma_byte_value(x: Single)
    requires
        in_unit(x),
    ensures
        ({
            let v: real = value(x) * 255real;
            let g: real = to_byte(x) as real;
            g <= v + (v / 16777216real + tiny()) && v - (v / 16777216real + tiny()) < g + 1real
        }),
{
    let full = Single { bits: FULL };
    lemma_full();
    lemma_value_whole(full, 255);
    lemma_unit_value(x);
    assert(fclamp(x, zero(), one()) == x);
    lemma_times_same(0real, value(x), 255real);
    lemma_product(x, full, 255real);
    let p = fmul(x, full);
    lemma_mul_order(zero(), x, full);
    lemma_mul_order(x, x, full);
    lemma_unit_bounded(x);
    lemma_value_order(zero(), p);
    lemma_to_int_value(p, 0, 255);
}

/// Green is the depth of a pixel as a part of the largest depth, in 255ths: with `m` the
/// squared distance to the nearest pixel that is not inside, and `most` the largest one of
/// the picture, green is the whole part of 255 times the root of `m / most`, up to rounding.
pub proof fn lemma_green_is_relative_depth(
    out: Seq<u8>,
    rgba: Seq<u8>,
    w: nat,
    h: nat,
    i: int,
    m: int,
    k: int,
    most: int,
)
    requires
        is_prepared(out, rgba, w, h),
        exactly_measurable(w, h),
        0 <= i < w * h,
        0 <= k < w * h,
        is_nearest_outside(inside_mask(rgba, w * h), w, h, i, m),
        is_nearest_outside(inside_mask(rgba, w * h), w, h, k, most),
        forall|j: int, n: int|
            0 <= j < w * h && #[trigger] is_nearest_outside(
                inside_mask(rgba, w * h),
                w,
                h,
                j,
                n,
            ) ==> n <= most,
        most > 0,
    ensures
        ({
            let g: int = out[4 * i + 1] as int;
            &&& 262144 * ((g * g) * most) <= 262145 * (65025 * m)
            &&& 262144 * (65025 * m) <= 262145 * (((g + 1) * (g + 1)) * most)
            &&& m == 0 ==> g == 0
        }),
{
    let inside = inside_mask(rgba, w * h);
    let d = distance_field(rgba, w, h);
    let top = deepest(d);
    let g: int = out[4 * i + 1] as int;
    assert(prepared_pixel(out, i, pixel_value(rgba, i), relative_depth(d, i)));
    lemma_distance_value(rgba, w, h, i, m);
    lemma_distance_value(rgba, w, h, k, most);
    assert(m <= most);
    let n: int = choose|n: int| 0 <= n < w * h && !inside[n] && m == #[trigger] apart(w, i, n);
    assert(has_outside(inside, w, h));
    lemma_field(rgba, w, h);
    lemma_deepest(d);
    // The largest distance is that of pixel k.
    assert(top == d[k]) by {
        lemma_unit_value(one());
        lemma_value_order(zero(), d[k]);
        assert(fle(d[k], top));
        lemma_value_order(d[k], top);
        let j: int = choose|j: int| 0 <= j < d.len() && top == #[trigger] d[j];
        let mj: int = lemma_distance(inside, w, h, j);
        let mk: int = lemma_distance(inside, w, h, k);
        lemma_nearest_unique(inside, w, h, k, most, mk);
        let x = squared_at(inside, w, h, j % (w as int), j / (w as int));
        let y = squared_at(inside, w, h, k % (w as int), k / (w as int));
        assert(mj * pow2(149) <= most * pow2(149)) by (nonlinear_arith)
            requires
                mj <= most,
        ;
        lemma_order(x, y);
        lemma_root_order(x, y);
    }
    let a: real = value(d[i]);
    let b: real = value(d[k]);
    lemma_unit_value(one());
    lemma_value_order(zero(), top);
    assert(relative_depth(d, i) == fdiv(d[i], top));
    if m == 0 {
        lemma_byte_of_zero(d[i]);
        assert(fdiv(d[i], top).is_zero()) by {
            lemma_zero_over(top);
            reveal(fdiv);
        }
        lemma_byte_of_zero(fdiv(d[i], top));
        assert(g == 0);
        assert((0 * 0) * most == 0 && ((0 + 1) * (0 + 1)) * most == most) by (nonlinear_arith);
    } else {
        let q = fdiv(d[i], top);
        let e: real = a / b;
        assert(fle(d[i], top));
        lemma_value_order(d[i], top);
        lemma_over(a, b);
        lemma_times(0real, e, b);
        lemma_spread(0real, 0real, b);
        lemma_times(e, 1real, b);
        lemma_quotient(d[i], top, 1real);
        assert(in_unit(q)) by {
            lemma_div_order(d[i], top, top);
            lemma_div_self(top);
            lemma_value_order(zero(), d[i]);
        }
        lemma_byte_value(q);
        lemma_unit_value(q);
        // With v the number of 255ths: v * b is 255 * a, up to rounding.
        let v: real = value(q) * 255real;
        let gr: real = g as real;
        let y: real = 255real * a;
        lemma_spread(e, slack(e) + tiny(), b);
        lemma_part(e, b);
        lemma_spread(slack(e), tiny(), b);
        lemma_times_same(value(q), e + (slack(e) + tiny()), b);
        lemma_times_same(e - (slack(e) + tiny()), value(q), b);
        lemma_times_same(b, 8192real, tiny());
        lemma_spread(b, 0real, tiny());
        lemma_group(value(q), 255real, b);
        lemma_group(255real, value(q), b);
        lemma_spread(value(q), 0real, 255real);
        let x: real = v * b;
        assert(near(x, y, y / 8388608real));
        // Green and the next number, times b.
        lemma_part(v, b);
        lemma_spread(v, v / 16777216real + tiny(), b);
        lemma_spread(v / 16777216real, tiny(), b);
        lemma_times_same(gr, v + (v / 16777216real + tiny()), b);
        lemma_times_same(v - (v / 16777216real + tiny()), gr + 1real, b);
        let z: real = y / 2097152real;
        let lo: real = gr * b;
        let hi: real = (gr + 1real) * b;
        assert(lo <= y + z);
        assert(hi >= y - z);
        lemma_depth_bounds(gr, a, b, m as real, most as real);
        assert((g + 1) as real == gr + 1real);
        lemma_whole_bounds(g, g + 1, m, most);
    }
}

/// Bounds in reals as bounds in whole numbers.
proof fn lemma_whole_bounds(g: int, n: int, m: int, most: int)
    requires
        262144real * ((g as real * g as real) * most as real) <= 262145real * (65025real
            * m as real),
        262144real * (65025real * m as real) <= 262145real * ((n as real * n as real)
            * most as real),
    ensures
        262144 * ((g * g) * most) <= 262145 * (65025 * m),
        262144 * (65025 * m) <= 262145 * ((n * n) * most),
{
    lemma_real_product(g, g);
    lemma_real_product(g * g, most);
    lemma_real_product(n, n);
    lemma_real_product(n * n, most);
    let lower: int = (g * g) * most;
    let upper: int = (n * n) * most;
    assert((262144 * lower) as real <= (262145 * (65025 * m)) as real);
    assert((262144 * (65025 * m)) as real <= (262145 * upper) as real);
}

/// What bounds on green, times the largest depth, say of the squares.
proof fn lemma_depth_bounds(g: real, a: real, b: real, m: real, most: real)
    requires
        g >= 0real,
        a >= 1real,
        b >= 1real,
        g * b <= 255real * a + (255real * a) / 2097152real,
        (g + 1real) * b >= 255real * a - (255real * a) / 2097152real,
        near(m, a * a, (a * a) / 4194304real),
        near(most, b * b, (b * b) / 4194304real),
    ensures
        262144real * ((g * g) * most) <= 262145real * (65025real * m),
        262144real * (65025real * m) <= 262145real * (((g + 1real) * (g + 1real)) * most),
{
    let y: real = 255real * a;
    let z: real = y / 2097152real;
    let aa: real = a * a;
    let bb: real = b * b;
    let yy: real = y * y;
    assert(yy == 65025real * aa) by (nonlinear_arith)
        requires
            yy == y * y,
            y == 255real * a,
            aa == a * a,
    ;
    assert(y * z == yy / 2097152real) by (nonlinear_arith)
        requires
            z == y / 2097152real,
            yy == y * y,
    ;
    lemma_near_square(y + z, y, z);
    lemma_near_square(y - z, y, z);
    // Above.
    let gg: real = g * g;
    let x: real = g * b;
    lemma_times_same(0real, g, b);
    lemma_spread(0real, 0real, b);
    lemma_times_same(x, y + z, x);
    lemma_times_same(x, y + z, y + z);
    lemma_spread(x, 0real, y + z);
    assert(x * x == gg * bb) by (nonlinear_arith)
        requires
            x == g * b,
            gg == g * g,
            bb == b * b,
    ;
    lemma_times_same(0real, g, g);
    lemma_spread(0real, 0real, g);
    lemma_times_same(most, bb + bb / 4194304real, gg);
    lemma_spread(bb, bb / 4194304real, gg);
    assert((bb / 4194304real) * gg == (gg * bb) / 4194304real) by (nonlinear_arith);
    lemma_spread(gg, 0real, bb);
    lemma_spread(gg, 0real, most);
    assert(gg * most <= gg * bb + (gg * bb) / 4194304real);
    // Below.
    let n: real = g + 1real;
    let nn: real = n * n;
    let w: real = n * b;
    lemma_times_same(y - z, w, y - z);
    lemma_times_same(y - z, w, w);
    lemma_spread(w, 0real, y - z);
    assert(w * w == nn * bb) by (nonlinear_arith)
        requires
            w == n * b,
            nn == n * n,
            bb == b * b,
    ;
    lemma_times_same(0real, n, n);
    lemma_spread(0real, 0real, n);
    lemma_times_same(bb - bb / 4194304real, most, nn);
    lemma_spread(bb, bb / 4194304real, nn);
    assert((bb / 4194304real) * nn == (nn * bb) / 4194304real) by (nonlinear_arith);
    lemma_spread(nn, 0real, bb);
    lemma_spread(nn, 0real, most);
    assert(nn * most >= nn * bb - (nn * bb) / 4194304real);
}

/// Green counts depths evenly: with `t` the whole part of 255 times the root of `m / most`,
/// green is `t`, or one more or less; a pixel less than half as deep as the deepest has a
/// green of 128 at most; and of two pixels, one twice as deep as the other, the greens are in
/// the ratio of one to two, up to two.
pub proof fn lemma_green_counts_evenly(
    out: Seq<u8>,
    rgba: Seq<u8>,
    w: nat,
    h: nat,
    i: int,
    j: int,
    m: int,
    k: int,
    most: int,
    t: int,
)
    requires
        is_prepared(out, rgba, w, h),
        exactly_measurable(w, h),
        0 <= i < w * h,
        0 <= j < w * h,
        0 <= k < w * h,
        is_nearest_outside(inside_mask(rgba, w * h), w, h, i, m),
        is_nearest_outside(inside_mask(rgba, w * h), w, h, k, most),
        forall|p: int, n: int|
            0 <= p < w * h && #[trigger] is_nearest_outside(
                inside_mask(rgba, w * h),
                w,
                h,
                p,
                n,
            ) ==> n <= most,
        most > 0,
        0 <= t,
        (t * t) * most <= 65025 * m,
        65025 * m < ((t + 1) * (t + 1)) * most,
    ensures
        ({
            let g: int = out[4 * i + 1] as int;
            let g2: int = out[4 * j + 1] as int;
            &&& t - 1 <= g <= t + 1
            &&& 4 * m < most ==> g <= 128
            &&& is_nearest_outside(inside_mask(rgba, w * h), w, h, j, 4 * m) ==> 2 * g - 1 <= g2
                <= 2 * g + 2
        }),
{
    let g: int = out[4 * i + 1] as int;
    let g2: int = out[4 * j + 1] as int;
    lemma_green_is_relative_depth(out, rgba, w, h, i, m, k, most);
    let inside = inside_mask(rgba, w * h);
    lemma_distance_value(rgba, w, h, i, m);
    assert(is_nearest_outside(inside, w, h, i, m));
    assert(m <= most);
    // No whole number up to 256 grows by less than the rounding.
    lemma_squares_apart(g, t + 2, m, most);
    lemma_squares_below(g + 1, t, m, most);
    if 4 * m < most && g >= 129 {
        assert((g * g) * most >= 16641 * most) by (nonlinear_arith)
            requires
                g >= 129,
                most > 0,
        ;
    }
    if is_nearest_outside(inside, w, h, j, 4 * m) {
        lemma_green_is_relative_depth(out, rgba, w, h, j, 4 * m, k, most);
        lemma_distance_value(rgba, w, h, j, 4 * m);
        if g2 >= 2 * g + 3 {
            // Then g2 / 2 is more than g + 1 by more than the rounding.
            assert((g2 * g2) * most >= (4 * ((g + 1) * (g + 1)) + 4 * (g + 1) + 1) * most)
                by (nonlinear_arith)
                requires
                    g2 >= 2 * (g + 1) + 1,
                    g >= 0,
                    most > 0,
            ;
            let b: int = ((g + 1) * (g + 1)) * most;
            assert((4 * ((g + 1) * (g + 1)) + 4 * (g + 1) + 1) * most == 4 * b + (4 * (g + 1) + 1)
                * most) by (nonlinear_arith)
                requires
                    b == ((g + 1) * (g + 1)) * most,
            ;
            assert((4 * (g + 1) + 1) * most >= 5 * most) by (nonlinear_arith)
                requires
                    g >= 0,
                    most > 0,
            ;
            assert(b <= 65536 * most) by (nonlinear_arith)
                requires
                    b == ((g + 1) * (g + 1)) * most,
                    0 <= g <= 255,
                    most > 0,
            ;
        }
        if g2 + 1 <= 2 * g - 1 {
            let b: int = (g * g) * most;
            assert(((g2 + 1) * (g2 + 1)) * most <= (4 * (g * g) - 4 * g + 1) * most)
                by (nonlinear_arith)
                requires
                    0 <= g2 + 1 <= 2 * g - 1,
                    most > 0,
            ;
            assert((4 * (g * g) - 4 * g + 1) * most == 4 * b - (4 * g - 1) * most)
                by (nonlinear_arith)
                requires
                    b == (g * g) * most,
            ;
            assert((4 * g - 1) * most >= 3 * most) by (nonlinear_arith)
                requires
                    g >= 1,
                    most > 0,
            ;
            assert(b <= 65025 * most) by (nonlinear_arith)
                requires
                    b == (g * g) * most,
                    0 <= g <= 255,
                    most > 0,
            ;
        }
    }
}

/// A green is no number whose square is too large.
proof fn lemma_squares_apart(g: int, u: int, m: int, most: int)
    requires
        0 <= g <= 255,
        u >= 2,
        most > 0,
        0 <= m <= most,
        262144 * ((g * g) * most) <= 262145 * (65025 * m),
        65025 * m < ((u - 1) * (u - 1)) * most,
    ensures
        g < u,
{
    if g >= u {
        let b: int = ((u - 1) * (u - 1)) * most;
        assert((g * g) * most >= b + (2 * u - 1) * most) by (nonlinear_arith)
            requires
                g >= u,
                u >= 2,
                b == ((u - 1) * (u - 1)) * most,
                most > 0,
        ;
        assert((2 * u - 1) * most >= 3 * most) by (nonlinear_arith)
            requires
                u >= 2,
                most > 0,
        ;
        assert(b <= 65025 * most) by (nonlinear_arith)
            requires
                b == ((u - 1) * (u - 1)) * most,
                1 <= u - 1 <= 255,
                most > 0,
        ;
    }
}

/// Nor is the next number one whose square is too small.
proof fn lemma_squares_below(n: int, t: int, m: int, most: int)
    requires
        1 <= n <= 256,
        t >= 0,
        most > 0,
        0 <= m <= most,
        (t * t) * most <= 65025 * m,
        262144 * (65025 * m) <= 262145 * ((n * n) * most),
    ensures
        n >= t,
{
    if n < t {
        let b: int = (n * n) * most;
        assert((t * t) * most >= b + (2 * n + 1) * most) by (nonlinear_arith)
            requires
                t >= n + 1,
                n >= 1,
                b == (n * n) * most,
                most > 0,
        ;
        assert((2 * n + 1) * most >= 3 * most) by (nonlinear_arith)
            requires
                n >= 1,
                most > 0,
        ;
        assert(b <= 65536 * most) by (nonlinear_arith)
            requires
                b == (n * n) * most,
                1 <= n <= 256,
                most > 0,
        ;
    }
}

/// The weights of the colours.
proof fn lemma_weights()
    ensures
        near(value(Single { bits: RED_WEIGHT }), 299real / 1000real, 1real / 30000000real),
        near(value(Single { bits: GREEN_WEIGHT }), 587real / 1000real, 1real / 30000000real),
        near(value(Single { bits: BLUE_WEIGHT }), 114real / 1000real, 1real / 30000000real),
        value(Single { bits: HALF }) == 1real / 2real,
{
    lemma2_to64();
    lemma_value_bits(Single { bits: RED_WEIGHT }, 25);
    assert(value(Single { bits: RED_WEIGHT }) * 33554432real == 10032775real);
    lemma_value_bits(Single { bits: GREEN_WEIGHT }, 24);
    assert(value(Single { bits: GREEN_WEIGHT }) * 16777216real == 9848226real);
    lemma_value_bits(Single { bits: BLUE_WEIGHT }, 27);
    assert(value(Single { bits: BLUE_WEIGHT }) * 134217728real == 15300821real);
    lemma_value_bits(Single { bits: HALF }, 24);
    assert(value(Single { bits: HALF }) * 16777216real == 8388608real);
}

/// A channel is its share of 255.
proof fn lemma_channel_value(v: u8)
    ensures
        channel(v).is_finite(),
        0real <= value(channel(v)) <= 1real,
        near(value(channel(v)), v as real / 255real, 1real / 16000000real),
{
    lemma_full();
    lemma_value_whole(Single { bits: FULL }, 255);
    lemma_from_int_value(v as int);
    lemma_channel(v, v);
    lemma_unit_value(channel(v));
    lemma_quotient(from_int(v as int), Single { bits: FULL }, 1real);
}

/// A weighted channel.
proof fn lemma_weighted_value(weight: Single, c: real, v: u8)
    requires
        weight.is_finite(),
        0real <= c <= 9real / 10real,
        0real <= value(weight) <= 1real,
        near(value(weight), c, 1real / 30000000real),
    ensures
        fmul(weight, channel(v)).is_finite(),
        near(value(fmul(weight, channel(v))), c * (v as real / 255real), 1real / 6000000real),
{
    lemma_channel_value(v);
    let x: real = value(weight);
    let y: real = value(channel(v));
    lemma_near_product(
        x,
        c,
        1real / 30000000real,
        y,
        v as real / 255real,
        1real / 16000000real,
        1real,
        1real,
    );
    lemma_times_same(x, 1real, y);
    lemma_times_same(0real, x, y);
    lemma_spread(0real, 0real, y);
    lemma_product(weight, channel(v), 1real);
}

/// The mask value is 0.299 of red, 0.587 of green and 0.114 of blue, times alpha, each as its
/// share of 255.
pub proof fn lemma_mask_value_value(r: u8, g: u8, b: u8, a: u8)
    ensures
        mask_value(r, g, b, a).is_finite(),
        near(
            value(mask_value(r, g, b, a)),
            ((299 * r + 587 * g + 114 * b) * a) as real / 65025000real,
            1real / 1000000real,
        ),
{
    let wr = Single { bits: RED_WEIGHT };
    let wg = Single { bits: GREEN_WEIGHT };
    let wb = Single { bits: BLUE_WEIGHT };
    lemma_weights();
    lemma_weighted_value(wr, 299real / 1000real, r);
    lemma_weighted_value(wg, 587real / 1000real, g);
    lemma_weighted_value(wb, 114real / 1000real, b);
    let x = fmul(wr, channel(r));
    let y = fmul(wg, channel(g));
    let z = fmul(wb, channel(b));
    lemma_sum(x, y, 1real);
    lemma_sum(fadd(x, y), z, 2real);
    let l = fadd(fadd(x, y), z);
    let n: int = 299 * r + 587 * g + 114 * b;
    let exact: real = n as real / 255000real;
    assert(near(value(l), exact, 1real / 1400000real));
    lemma_channel_value(a);
    lemma_near_product(
        value(l),
        exact,
        1real / 1400000real,
        value(channel(a)),
        a as real / 255real,
        1real / 16000000real,
        1real,
        1real,
    );
    lemma_times_same(value(l), 2real, value(channel(a)));
    lemma_times_same(-1real, value(l), value(channel(a)));
    lemma_times_same(value(channel(a)), 1real, 2real);
    lemma_spread(1real, 0real, value(channel(a)));
    lemma_mask_value_in_unit(r, g, b, a);
    lemma_unit_value(mask_value(r, g, b, a));
    assert(-1real <= value(l) * value(channel(a)) <= 1real + 1real / 1000real) by {
        lemma_times_same(exact, 1real, a as real / 255real);
        lemma_times_same(0real, exact, a as real / 255real);
        lemma_spread(0real, 0real, a as real / 255real);
    }
    lemma_product(l, channel(a), 1real + 1real / 1000real);
    lemma_real_product(n, a as int);
    assert(exact * (a as real / 255real) == (n as real * a as real) / 65025000real)
        by (nonlinear_arith)
        requires
            exact == n as real / 255000real,
    ;
}

/// Red is the mask value in 255ths: with `n` the weighted colours times alpha, counted in
/// thousandths of 255ths of 255ths, red is the whole part of `n / 255000`, up to rounding. A
/// pixel is inside where that is more than half of the largest, up to rounding. Blue is zero
/// and alpha full.
pub proof fn lemma_red_is_mask_value(out: Seq<u8>, rgba: Seq<u8>, w: nat, h: nat, i: int)
    requires
        is_prepared(out, rgba, w, h),
        0 <= i < w * h,
    ensures
        ({
            let n: int = (299 * rgba[4 * i] + 587 * rgba[4 * i + 1] + 114 * rgba[4 * i + 2])
                * rgba[4 * i + 3];
            let red: int = out[4 * i] as int;
            &&& 255000 * red <= n + 100
            &&& n < 255000 * (red + 1) + 100
            &&& n > 32512500 + 100 ==> inside_mask(rgba, w * h)[i]
            &&& n < 32512500 - 100 ==> !inside_mask(rgba, w * h)[i]
            &&& inside_mask(rgba, w * h)[i] <==> value(pixel_value(rgba, i)) > 1real / 2real
            &&& out[4 * i + 2] == 0
            &&& out[4 * i + 3] == 255
        }),
        out.len() == 4 * (w * h),
{
    let r: u8 = rgba[4 * i];
    let g: u8 = rgba[4 * i + 1];
    let b: u8 = rgba[4 * i + 2];
    let a: u8 = rgba[4 * i + 3];
    let x = pixel_value(rgba, i);
    assert(prepared_pixel(out, i, x, relative_depth(distance_field(rgba, w, h), i)));
    lemma_mask_value_value(r, g, b, a);
    lemma_mask_value_in_unit(r, g, b, a);
    lemma_unit_value(x);
    lemma_byte_value(x);
    lemma_weights();
    lemma_value_order(Single { bits: HALF }, x);
}

/// Whatever the size of the mask: relative depths are the distances over the largest one of
/// them, up to rounding.
pub proof fn lemma_relative_depth_value(d: Seq<Single>, i: int, k: int)
    requires
        0 <= i < d.len(),
        0 <= k < d.len(),
        forall|j: int|
            0 <= j < d.len() ==> (#[trigger] d[j]).is_finite() && !d[j].negative() && fle(
                d[j],
                d[k],
            ),
        !d[k].is_zero(),
    ensures
        relative_depth(d, i).is_finite(),
        value(d[k]) > 0real,
        near(
            value(relative_depth(d, i)),
            value(d[i]) / value(d[k]),
            1real / 16000000real,
        ),
{
    lemma_deepest_is_one(d, k);
    let top = deepest(d);
    assert(d[i].is_finite() && fle(d[i], d[k]));
    lemma_unit_value(one());
    lemma_magnitude_zero();
    assert(flt(zero(), d[k]));
    lemma_value_order(zero(), d[k]);
    assert(fle(zero(), d[i]));
    lemma_value_order(zero(), d[i]);
    lemma_value_order(d[i], d[k]);
    let a: real = value(d[i]);
    let b: real = value(d[k]);
    lemma_over(a, b);
    lemma_times(0real, a / b, b);
    lemma_times(a / b, 1real, b);
    lemma_spread(0real, 0real, b);
    lemma_quotient(d[i], d[k], 1real);
}

/// The largest of the distances, where `d[k]` is one that none exceeds.
proof fn lemma_deepest_is_one(d: Seq<Single>, k: int)
    requires
        0 <= k < d.len(),
        forall|j: int|
            0 <= j < d.len() ==> (#[trigger] d[j]).is_finite() && !d[j].negative() && fle(
                d[j],
                d[k],
            ),
    ensures
        deepest(d) == d[k],
{
    lemma_deepest_within(d, d[k]);
    assert(d[k].is_finite());
}

/// The largest distance is no less than any and no more than a bound of all.
proof fn lemma_deepest_within(d: Seq<Single>, top: Single)
    requires
        top.is_finite(),
        !top.negative(),
        forall|j: int|
            0 <= j < d.len() ==> (#[trigger] d[j]).is_finite() && !d[j].negative() && fle(
                d[j],
                top,
            ),
    ensures
        !deepest(d).negative(),
        fle(deepest(d), top),
        forall|j: int| 0 <= j < d.len() ==> fle(#[trigger] d[j], deepest(d)),
    decreases d.len(),
{
    if d.len() > 0 {
        let rest = d.drop_last();
        assert(forall|j: int| 0 <= j < rest.len() ==> #[trigger] rest[j] == d[j]);
        lemma_deepest_within(rest, top);
        assert(d[d.len() - 1].is_finite());
        assert forall|j: int| 0 <= j < d.len() implies fle(#[trigger] d[j], deepest(d)) by {
            if j < rest.len() {
                assert(fle(rest[j], deepest(rest)));
            }
        }
    }
}

/// Where all pixels are inside, and the sum of the squared sides is exact in binary32, all of
/// them are equally deep, and green is full everywhere.
pub proof fn lemma_all_inside_is_full(out: Seq<u8>, rgba: Seq<u8>, w: nat, h: nat, i: int)
    requires
        is_prepared(out, rgba, w, h),
        0 <= i < w * h,
        forall|j: int| 0 <= j < w * h ==> #[trigger] inside_mask(rgba, w * h)[j],
        2 * (w * w) + h * h <= 0x100_0000,
        w * w + 2 * (h * h) <= 0x100_0000,
    ensures
        out[4 * i + 1] == 255,
{
    let inside = inside_mask(rgba, w * h);
    let d = distance_field(rgba, w, h);
    let s: int = far(w, h);
    assert forall|j: int| 0 <= j < d.len() implies (#[trigger] d[j]).is_finite() && !d[j].negative()
        && !d[j].is_zero() && fle(d[j], d[i]) by {
        lemma_unplace(w, h, j);
        lemma_unplace(w, h, i);
        lemma_all_inside_is_even(inside, w, h, j);
        lemma_all_inside_is_even(inside, w, h, i);
        let x = squared_at(inside, w, h, j % (w as int), j / (w as int));
        let y = squared_at(inside, w, h, i % (w as int), i / (w as int));
        assert(inside[j] && inside[i]);
        assert(d[j] == fsqrt(x) && d[i] == fsqrt(y));
        lemma_root_of_whole(x, s);
        lemma_root_of_whole(y, s);
        lemma_order(x, y);
        lemma_root_order(x, y);
    }
    lemma_deepest_is_one(d, i);
    assert(d[i].is_finite());
    lemma_largest_is_full(d, i);
    assert(prepared_pixel(out, i, pixel_value(rgba, i), relative_depth(d, i)));
}

} // verus!
