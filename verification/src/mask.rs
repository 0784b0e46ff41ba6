//! Mask images as shaders read them: the mask value beside the distance from its edge.
use crate::edt::{compute_edt, distance_at, measurable};
use crate::single::{fadd, fclamp, fdiv, flt, fmax, fmul, from_int, to_int, zero, Single};
use vstd::prelude::*;

verus! {

/// The number one.
pub const ONE: u32 = 0x3f80_0000;

/// The number 0.5.
pub const HALF: u32 = 0x3f00_0000;

/// The number 255.
pub const FULL: u32 = 0x437f_0000;

/// The weight of red in the luminance, 0.299.
pub const RED_WEIGHT: u32 = 0x3e99_1687;

/// The weight of green in the luminance, 0.587.
pub const GREEN_WEIGHT: u32 = 0x3f16_45a2;

/// The weight of blue in the luminance, 0.114.
pub const BLUE_WEIGHT: u32 = 0x3de9_78d5;

/// A colour channel as a fraction.
pub open spec fn channel(v: u8) -> Single {
    fdiv(from_int(v as int), Single { bits: FULL })
}

/// Luminance times alpha.
pub open spec fn mask_value(r: u8, g: u8, b: u8, a: u8) -> Single {
    fmul(
        fadd(
            fadd(
                fmul(Single { bits: RED_WEIGHT }, channel(r)),
                fmul(Single { bits: GREEN_WEIGHT }, channel(g)),
            ),
            fmul(Single { bits: BLUE_WEIGHT }, channel(b)),
        ),
        channel(a),
    )
}

/// The mask value of pixel `i` of an image.
pub open spec fn pixel_value(rgba: Seq<u8>, i: int) -> Single {
    mask_value(rgba[4 * i], rgba[4 * i + 1], rgba[4 * i + 2], rgba[4 * i + 3])
}

/// The pixels whose mask value is above one half.
pub open spec fn inside_mask(rgba: Seq<u8>, n: nat) -> Seq<bool> {
    Seq::new(n, |i: int| flt(Single { bits: HALF }, pixel_value(rgba, i)))
}

/// The distance of each pixel from the edge of the mask.
pub open spec fn distance_field(rgba: Seq<u8>, w: nat, h: nat) -> Seq<Single> {
    Seq::new(
        w * h,
        |i: int|
            distance_at(inside_mask(rgba, w * h), w, h, i % (w as int), i / (w as int)),
    )
}

/// The largest distance; zero where there is none.
pub open spec fn deepest(d: Seq<Single>) -> Single
    decreases d.len(),
{
    if d.len() == 0 {
        zero()
    } else {
        fmax(deepest(d.drop_last()), d.last())
    }
}

/// The distance of pixel `i` as a fraction of the largest one, so that the largest becomes
/// one; as it is where there is no distance above zero.
pub open spec fn relative_depth(d: Seq<Single>, i: int) -> Single {
    if flt(zero(), deepest(d)) {
        fdiv(d[i], deepest(d))
    } else {
        d[i]
    }
}

/// The four bytes of pixel `i`: the mask value, the relative depth, zero and full.
pub open spec fn prepared_pixel(out: Seq<u8>, i: int, value: Single, depth: Single) -> bool {
    &&& out[4 * i] == to_byte(value)
    &&& out[4 * i + 1] == to_byte(depth)
    &&& out[4 * i + 2] == 0
    &&& out[4 * i + 3] == 255
}

/// A fraction as a byte.
pub open spec fn to_byte(x: Single) -> u8 {
    to_int(
        fmul(fclamp(x, zero(), Single { bits: ONE }), Single { bits: FULL }),
        0,
        255,
    ) as u8
}

/// `out` is the prepared mask of the picture `rgba`.
pub open spec fn is_prepared(out: Seq<u8>, rgba: Seq<u8>, w: nat, h: nat) -> bool {
    &&& out.len() == 4 * (w * h)
    &&& forall|i: int|
        0 <= i < w * h ==> #[trigger] prepared_pixel(
            out,
            i,
            pixel_value(rgba, i),
            relative_depth(distance_field(rgba, w, h), i),
        )
}

fn channel_of(v: u8) -> (r: Single)
    ensures
        r == channel(v),
{
    Single::from_u64(v as u64).over(Single { bits: FULL })
}

fn mask_value_of(r: u8, g: u8, b: u8, a: u8) -> (v: Single)
    ensures
        v == mask_value(r, g, b, a),
{
    let red = Single { bits: RED_WEIGHT }.times(channel_of(r));
    let green = Single { bits: GREEN_WEIGHT }.times(channel_of(g));
    let blue = Single { bits: BLUE_WEIGHT }.times(channel_of(b));
    red.plus(green).plus(blue).times(channel_of(a))
}

fn byte_of(x: Single) -> (v: u8)
    ensures
        v == to_byte(x),
{
    reveal(to_int);
    x.clamped(Single { bits: 0 }, Single { bits: ONE }).times(Single { bits: FULL }).to_u8()
}

/// Prepares a mask image for a shader. Of each pixel of the result, red is the mask value
/// (luminance times alpha), green the distance from the edge of the mask as a fraction of
/// the largest one, blue zero and alpha full.
pub fn preprocess_mask_with_distance(rgba: &[u8], width: usize, height: usize) -> (out: Vec<u8>)
    requires
        4 * (width * height) <= rgba.len(),
        measurable(width as nat, height as nat),
    ensures
        out.len() == 4 * (width * height),
        forall|i: int|
            0 <= i < width * height ==> #[trigger] prepared_pixel(
                out@,
                i,
                pixel_value(rgba@, i),
                relative_depth(distance_field(rgba@, width as nat, height as nat), i),
            ),
        is_prepared(out@, rgba@, width as nat, height as nat),
{
    let ghost w: nat = width as nat;
    let ghost h: nat = height as nat;
    let n: usize = width * height;
    let mut values: Vec<Single> = Vec::new();
    let mut inside: Vec<bool> = Vec::new();
    let mut i: usize = 0;
    while i < n
        invariant
            i <= n,
            n == width * height,
            4 * n <= rgba.len(),
            values.len() == i,
            inside.len() == i,
            forall|j: int| 0 <= j < i ==> #[trigger] values[j] == pixel_value(rgba@, j),
            forall|j: int|
                0 <= j < i ==> #[trigger] inside[j] == flt(
                    Single { bits: HALF },
                    pixel_value(rgba@, j),
                ),
        decreases n - i,
    {
        let v = mask_value_of(rgba[4 * i], rgba[4 * i + 1], rgba[4 * i + 2], rgba[4 * i + 3]);
        values.push(v);
        inside.push(Single { bits: HALF }.less(v));
        i = i + 1;
    }
    assert(inside@ =~= inside_mask(rgba@, w * h));
    let distances = compute_edt(inside.as_slice(), width, height);
    let ghost field = distance_field(rgba@, w, h);
    assert(distances@ =~= field);
    let mut top = Single { bits: 0 };
    let mut i: usize = 0;
    while i < distances.len()
        invariant
            i <= distances.len(),
            distances@ == field,
            top == deepest(field.take(i as int)),
        decreases distances.len() - i,
    {
        assert(field.take(i + 1).drop_last() =~= field.take(i as int));
        top = top.larger(distances[i]);
        i = i + 1;
    }
    assert(field.take(field.len() as int) =~= field);
    let any_depth = (Single { bits: 0 }).less(top);
    let mut out: Vec<u8> = Vec::new();
    let mut i: usize = 0;
    while i < n
        invariant
            i <= n,
            n == width * height,
            w == width,
            h == height,
            4 * n <= rgba.len(),
            values.len() == n,
            distances@ == field,
            field == distance_field(rgba@, w, h),
            top == deepest(field),
            any_depth == flt(zero(), top),
            forall|j: int| 0 <= j < n ==> #[trigger] values[j] == pixel_value(rgba@, j),
            out.len() == 4 * i,
            forall|j: int|
                0 <= j < i ==> #[trigger] prepared_pixel(
                    out@,
                    j,
                    pixel_value(rgba@, j),
                    relative_depth(field, j),
                ),
        decreases n - i,
    {
        let ghost before = out@;
        out.push(byte_of(values[i]));
        let depth = if any_depth {
            distances[i].over(top)
        } else {
            distances[i]
        };
        out.push(byte_of(depth));
        out.push(0);
        out.push(255);
        assert forall|j: int| 0 <= j < i + 1 implies #[trigger] prepared_pixel(
            out@,
            j,
            pixel_value(rgba@, j),
            relative_depth(field, j),
        ) by {
            if j < i {
                assert(prepared_pixel(before, j, pixel_value(rgba@, j), relative_depth(field, j)));
            }
        }
        i = i + 1;
    }
    out
}

} // verus!
