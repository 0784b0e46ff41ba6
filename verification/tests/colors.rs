use ffgl_plugins::color::{hsb_to_rgb, hsv_to_rgb};
use ffgl_plugins::single::Single;

fn s(x: f32) -> Single {
    Single { bits: x.to_bits() }
}

fn native(h: f32, s: f32, v: f32) -> (f32, f32, f32) {
    let place = h.rem_euclid(1.0) * 6.0;
    let c = v * s;
    let x = c * (1.0 - ((place % 2.0) - 1.0).abs());
    let parts = [(c, x, 0.0), (x, c, 0.0), (0.0, c, x), (0.0, x, c), (x, 0.0, c), (c, 0.0, x)];
    let (r, g, b) = parts[(place as usize).min(5)];
    let m = v - c;
    (r + m, g + m, b + m)
}

fn same(got: (Single, Single, Single), want: (f32, f32, f32)) {
    assert_eq!(got.0.bits, want.0.to_bits());
    assert_eq!(got.1.bits, want.1.to_bits());
    assert_eq!(got.2.bits, want.2.to_bits());
}

#[test]
fn colours_match_native_arithmetic() {
    for i in 0..40 {
        let h = i as f32 * 0.077 - 0.9;
        for (sat, v) in [(1.0f32, 1.0f32), (0.15, 1.0), (0.7, 0.3), (0.33, 0.9), (0.001, 0.5)] {
            same(hsb_to_rgb(s(h), s(sat), s(v)), native(h, sat, v));
        }
    }
}

#[test]
fn pure_hues() {
    same(hsb_to_rgb(s(0.0), s(1.0), s(1.0)), (1.0, 0.0, 0.0));
    same(hsb_to_rgb(s(0.5), s(1.0), s(1.0)), (0.0, 1.0, 1.0));
    same(hsb_to_rgb(s(1.0), s(1.0), s(1.0)), (1.0, 0.0, 0.0));
    same(hsb_to_rgb(s(0.25), s(1.0), s(1.0)), (0.5, 1.0, 0.0));
    same(hsb_to_rgb(s(-0.25), s(1.0), s(1.0)), (0.5, 0.0, 1.0));
}

#[test]
fn without_saturation_colours_are_grey() {
    for v in [0.0f32, 0.1, 0.37, 1.0, 5.5] {
        same(hsb_to_rgb(s(0.77), s(0.0), s(v)), (v, v, v));
    }
}

#[test]
fn without_brightness_colours_are_black() {
    for sat in [0.0f32, 0.4, 1.0] {
        same(hsb_to_rgb(s(0.31), s(sat), s(0.0)), (0.0, 0.0, 0.0));
    }
}

#[test]
fn hardly_any_saturation_is_grey() {
    same(hsv_to_rgb(s(0.2), s(0.0001), s(0.8)), (0.8, 0.8, 0.8));
    same(hsv_to_rgb(s(0.2), s(0.00011), s(0.8)), native(0.2, 0.00011, 0.8));
    same(hsv_to_rgb(s(0.6), s(0.15), s(1.0)), native(0.6, 0.15, 1.0));
}

#[test]
fn colour_parts_stay_between_zero_and_one() {
    for i in 0..=60 {
        let h = i as f32 / 60.0;
        for k in 0..=10 {
            let t = k as f32 / 10.0;
            let (r, g, b) = hsb_to_rgb(s(h), s(t), s(1.0));
            for x in [r, g, b] {
                let y = f32::from_bits(x.bits);
                assert!((0.0..=1.0).contains(&y));
            }
        }
    }
}

#[test]
fn hue_that_is_not_a_number_falls_into_the_last_part() {
    let (r, g, b) = hsb_to_rgb(s(f32::NAN), s(0.5), s(0.5));
    assert_eq!(f32::from_bits(r.bits), 0.5);
    assert_eq!(f32::from_bits(g.bits), 0.25);
    assert!(f32::from_bits(b.bits).is_nan());
}

#[test]
fn conversions_agree() {
    for i in 0..=30 {
        let h = i as f32 / 30.0;
        for sat in [0.0f32, 0.00011, 0.3, 1.0] {
            for v in [0.0f32, 0.2, 1.0] {
                let a = hsb_to_rgb(s(h), s(sat), s(v));
                let b = hsv_to_rgb(s(h), s(sat), s(v));
                assert_eq!((a.0.bits, a.1.bits, a.2.bits), (b.0.bits, b.1.bits, b.2.bits));
            }
        }
    }
}
