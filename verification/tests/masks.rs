use ffgl_plugins::distance::dt_1d;
use ffgl_plugins::edt::compute_edt;
use ffgl_plugins::mask::preprocess_mask_with_distance;
use ffgl_plugins::single::Single;

fn s(x: f32) -> Single {
    Single { bits: x.to_bits() }
}

fn f(x: Single) -> f32 {
    f32::from_bits(x.bits)
}

/// A small stream of numbers.
fn noise(seed: &mut u32) -> u32 {
    *seed = seed.wrapping_mul(1_664_525).wrapping_add(1_013_904_223);
    *seed >> 8
}

/// The squared distance of each pixel to the nearest one that is not inside.
fn nearest(inside: &[bool], w: usize, h: usize) -> Vec<Option<i64>> {
    let mut out = Vec::new();
    for y in 0..h {
        for x in 0..w {
            let mut best: Option<i64> = None;
            for v in 0..h {
                for u in 0..w {
                    if !inside[v * w + u] {
                        let dx = x as i64 - u as i64;
                        let dy = y as i64 - v as i64;
                        let d = dx * dx + dy * dy;
                        best = Some(best.map_or(d, |b| b.min(d)));
                    }
                }
            }
            out.push(best);
        }
    }
    out
}

fn check_distances(inside: &[bool], w: usize, h: usize) {
    let d = compute_edt(inside, w, h);
    let want = nearest(inside, w, h);
    assert_eq!(d.len(), w * h);
    for i in 0..w * h {
        let squared = want[i].unwrap();
        assert_eq!(f(d[i]), (squared as f32).sqrt(), "pixel {} of {}x{}", i, w, h);
    }
}

#[test]
fn row_with_one_seed_gives_squares() {
    let row: Vec<Single> = [100.0, 100.0, 0.0, 100.0, 100.0, 100.0].iter().map(|x| s(*x)).collect();
    let d = dt_1d(&row);
    let got: Vec<f32> = d.iter().map(|x| f(*x)).collect();
    assert_eq!(got, vec![4.0, 1.0, 0.0, 1.0, 4.0, 9.0]);
}

#[test]
fn row_takes_the_lower_of_two_parabolas() {
    let row: Vec<Single> = [3.0, 50.0, 50.0, 50.0, 0.0].iter().map(|x| s(*x)).collect();
    let d = dt_1d(&row);
    let got: Vec<f32> = d.iter().map(|x| f(*x)).collect();
    assert_eq!(got, vec![3.0, 4.0, 4.0, 1.0, 0.0]);
}

#[test]
fn short_rows_stay_as_they_are() {
    assert_eq!(dt_1d(&[]).len(), 0);
    let d = dt_1d(&[s(7.5)]);
    assert_eq!(d.len(), 1);
    assert_eq!(f(d[0]), 7.5);
}

#[test]
fn distances_are_those_to_the_nearest_outside() {
    let mut seed: u32 = 7;
    for (w, h) in [(1usize, 1usize), (1, 9), (9, 1), (6, 6), (13, 9), (17, 5)] {
        for density in [2u32, 5, 40] {
            let mut inside: Vec<bool> = (0..w * h).map(|_| noise(&mut seed) % density != 0).collect();
            let at = noise(&mut seed) as usize % (w * h);
            inside[at] = false;
            check_distances(&inside, w, h);
        }
    }
}

#[test]
fn distances_are_exact_on_the_longest_row() {
    let w = 4097;
    let mut inside = vec![true; w];
    inside[0] = false;
    let d = compute_edt(&inside, w, 1);
    for (i, x) in d.iter().enumerate() {
        assert_eq!(f(*x), i as f32);
    }
}

#[test]
fn no_outside_makes_all_distances_far() {
    let d = compute_edt(&[true; 12], 4, 3);
    for x in d.iter() {
        assert_eq!(f(*x), 5.0);
    }
}

#[test]
fn pixels_behind_the_mask_keep_their_seed() {
    let d = compute_edt(&[false, true, true, false], 2, 1);
    assert_eq!(d.iter().map(|x| f(*x)).collect::<Vec<f32>>(), vec![0.0, 1.0, 5.0f32.sqrt(), 0.0]);
}

/// Red and green of the prepared mask, from the definition.
fn prepared(rgba: &[u8], w: usize, h: usize) -> Vec<u8> {
    let n = w * h;
    let mut values = Vec::new();
    for p in rgba.chunks(4).take(n) {
        let c: Vec<f32> = p.iter().map(|v| *v as f32 / 255.0).collect();
        values.push((0.299 * c[0] + 0.587 * c[1] + 0.114 * c[2]) * c[3]);
    }
    let inside: Vec<bool> = values.iter().map(|v: &f32| *v > 0.5).collect();
    let far = (w * w + h * h) as i64;
    let d: Vec<f32> =
        nearest(&inside, w, h).iter().map(|m| (m.unwrap_or(far) as f32).sqrt()).collect();
    let top = d.iter().cloned().fold(0.0f32, f32::max);
    let mut out = Vec::new();
    for i in 0..n {
        out.push((values[i].clamp(0.0, 1.0) * 255.0) as u8);
        let depth = if top > 0.0 { d[i] / top } else { d[i] };
        out.push((depth.clamp(0.0, 1.0) * 255.0) as u8);
        out.push(0);
        out.push(255);
    }
    out
}

#[test]
fn prepared_masks_follow_the_definition() {
    let mut seed: u32 = 99;
    for (w, h) in [(1usize, 1usize), (11, 7), (3, 16), (8, 8)] {
        let rgba: Vec<u8> = (0..4 * w * h)
            .map(|i| {
                let v = noise(&mut seed);
                if i % 4 == 3 && v % 3 != 0 {
                    255
                } else {
                    (128 + v % 128) as u8
                }
            })
            .collect();
        assert_eq!(preprocess_mask_with_distance(&rgba, w, h), prepared(&rgba, w, h));
    }
}

#[test]
fn prepared_white_is_full_everywhere() {
    let out = preprocess_mask_with_distance(&[255; 4 * 6], 3, 2);
    assert_eq!(out, prepared(&[255; 4 * 6], 3, 2));
    for p in out.chunks(4) {
        assert_eq!(p[0], 255);
        assert_eq!(p[1], 255);
        assert_eq!(p[2], 0);
        assert_eq!(p[3], 255);
    }
}

#[test]
fn transparent_pixels_are_outside() {
    let rgba = [255, 255, 255, 0, 255, 255, 255, 255];
    let out = preprocess_mask_with_distance(&rgba, 2, 1);
    assert_eq!(out, vec![0, 0, 0, 255, 255, 255, 0, 255]);
}

#[test]
fn threshold_is_above_one_half() {
    // A grey of 127 is below one half, of 128 above.
    let rgba = [127, 127, 127, 255, 128, 128, 128, 255];
    let out = preprocess_mask_with_distance(&rgba, 2, 1);
    assert_eq!(out[1], 0);
    assert_eq!(out[5], 255);
    assert_eq!(out[0], 127);
    assert_eq!(out[4], 128);
}

#[test]
fn deeper_pixels_are_brighter_and_the_deepest_is_full() {
    let w = 9;
    let h = 7;
    let mut rgba = vec![255u8; 4 * w * h];
    for y in 0..h {
        for x in 0..w {
            if x == 0 || y == 0 || x == w - 1 || y == h - 1 {
                rgba[4 * (y * w + x)] = 0;
                rgba[4 * (y * w + x) + 1] = 0;
            }
        }
    }
    let out = preprocess_mask_with_distance(&rgba, w, h);
    let green = |x: usize, y: usize| out[4 * (y * w + x) + 1];
    assert_eq!(green(0, 3), 0);
    assert_eq!(green(1, 3), 85);
    assert_eq!(green(2, 3), 170);
    assert_eq!(green(3, 3), 255);
    assert_eq!(green(4, 3), 255);
    assert_eq!(green(4, 2), 170);
}

#[test]
fn brighter_pixels_have_larger_mask_values() {
    let mut last = 0;
    for v in 0..=255u8 {
        let out = preprocess_mask_with_distance(&[v, v / 2, v, 255], 1, 1);
        assert!(out[0] >= last);
        last = out[0];
    }
    assert_eq!(preprocess_mask_with_distance(&[255, 0, 0, 255], 1, 1)[0], 76);
    assert_eq!(preprocess_mask_with_distance(&[0, 255, 0, 255], 1, 1)[0], 149);
    assert_eq!(preprocess_mask_with_distance(&[0, 0, 255, 255], 1, 1)[0], 29);
}

#[test]
fn empty_masks_are_empty() {
    assert_eq!(preprocess_mask_with_distance(&[], 0, 0).len(), 0);
    assert_eq!(preprocess_mask_with_distance(&[], 5, 0).len(), 0);
    assert_eq!(preprocess_mask_with_distance(&[1, 2, 3, 4], 0, 3).len(), 0);
}

#[test]
fn deepest_pixel_is_full_at_every_depth() {
    for n in 1..=60usize {
        let mut rgba = vec![255u8; 4 * (n + 1)];
        rgba[0] = 0;
        rgba[1] = 0;
        rgba[2] = 0;
        let out = preprocess_mask_with_distance(&rgba, n + 1, 1);
        assert_eq!(out[4 * n + 1], 255);
        assert_eq!(out[1], 0);
    }
}

#[test]
fn white_pictures_are_full() {
    let out = preprocess_mask_with_distance(&[255u8; 48], 4, 3);
    for p in out.chunks(4) {
        assert_eq!(p, [255, 255, 0, 255]);
    }
}

#[test]
fn green_follows_the_pixels_inside() {
    let dark = [10u8, 20, 30, 255];
    let clear = [255u8, 255, 255, 100];
    let bright = [200u8, 180, 220, 255];
    let white = [255u8, 255, 255, 255];
    let mut p = Vec::new();
    let mut q = Vec::new();
    for i in 0..35usize {
        let inside = i % 6 != 0 && i % 11 != 3;
        p.extend(if inside { bright } else { dark });
        q.extend(if inside { white } else { clear });
    }
    let a = preprocess_mask_with_distance(&p, 7, 5);
    let b = preprocess_mask_with_distance(&q, 7, 5);
    for i in 0..35 {
        assert_eq!(a[4 * i + 1], b[4 * i + 1]);
    }
    assert_ne!(a[4], b[4]);
}

#[test]
fn nothing_inside_has_no_green() {
    let out = preprocess_mask_with_distance(&[100u8; 4 * 20], 5, 4);
    for p in out.chunks(4) {
        assert_eq!(p[1], 0);
    }
}

#[test]
fn outside_pixels_have_no_distance_in_long_rows() {
    for w in [4099usize, 5000] {
        let d = compute_edt(&vec![false; w], w, 1);
        for x in d.iter() {
            assert_eq!(f(*x), 0.0);
        }
    }
}
