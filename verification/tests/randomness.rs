use ffgl_plugins::random::{fraction_of, next_state, variation_of, SEED};
use ffgl_plugins::single::Single;
use ffgl_plugins::slices::{count_slices, edge_of, pick_slice};

fn s(x: f32) -> Single {
    Single { bits: x.to_bits() }
}

fn f(x: Single) -> f32 {
    f32::from_bits(x.bits)
}

fn native_next(mut x: u32) -> u32 {
    if x == 0 {
        x = 0x9e37_79b9;
    }
    x ^= x << 13;
    x ^= x >> 17;
    x ^= x << 5;
    x
}

#[test]
fn generator_steps() {
    assert_eq!(SEED, 0x9e37_79b9);
    assert_eq!(next_state(1), 270_369);
    assert_eq!(next_state(0), next_state(SEED));
    let mut x = SEED;
    for _ in 0..1000 {
        let y = next_state(x);
        assert_eq!(y, native_next(x));
        assert_ne!(y, 0);
        x = y;
    }
}

#[test]
fn different_states_have_different_successors() {
    let next: Vec<u32> = (1..2000).map(next_state).collect();
    for i in 1..next.len() {
        assert!(!next[..i].contains(&next[i]));
    }
}

#[test]
fn fractions_of_states() {
    assert_eq!(f(fraction_of(0)), 0.0);
    assert_eq!(f(fraction_of(u32::MAX)), 1.0);
    let mut x = SEED;
    for _ in 0..500 {
        x = next_state(x);
        let want = x as f32 / u32::MAX as f32;
        assert_eq!(fraction_of(x).bits, want.to_bits());
        assert!((0.0..=1.0).contains(&want));
    }
}

#[test]
fn jitter_varies_by_at_most_a_half() {
    assert_eq!(f(variation_of(s(0.0), s(1.0))), 0.5);
    assert_eq!(f(variation_of(s(1.0), s(1.0))), 1.5);
    assert_eq!(f(variation_of(s(0.9), s(0.0))), 1.0);
    assert_eq!(f(variation_of(s(1.0), s(7.0))), 1.5);
    assert_eq!(f(variation_of(s(0.0), s(-3.0))), 1.0);
    for (r, j) in [(0.3f32, 0.3f32), (0.77, 0.9), (0.1, 0.55)] {
        let want = 1.0 + (r - 0.5) * j.clamp(0.0, 1.0);
        assert_eq!(variation_of(s(r), s(j)).bits, want.to_bits());
    }
}

#[test]
fn slices_are_counted_from_one() {
    assert_eq!(count_slices(s(4.0)), 4);
    assert_eq!(count_slices(s(4.9)), 4);
    assert_eq!(count_slices(s(0.0)), 1);
    assert_eq!(count_slices(s(-7.0)), 1);
    assert_eq!(count_slices(s(f32::NAN)), 1);
    assert_eq!(count_slices(s(1e20)), i32::MAX);
    assert_eq!(pick_slice(0, 4), 1);
    assert_eq!(pick_slice(3, 4), 3);
    assert_eq!(pick_slice(9, 4), 4);
}

#[test]
fn edges_cut_the_axis() {
    for n in [1i32, 2, 3, 4, 10, 100, 12345] {
        assert_eq!(f(edge_of(0, n)), 0.0);
        assert_eq!(f(edge_of(n, n)), 1.0);
        let mut last = -1.0f32;
        for k in 0..=n.min(500) {
            let e = f(edge_of(k, n));
            assert_eq!(e, k as f32 / n as f32);
            assert!(e > last);
            last = e;
        }
    }
}

#[test]
fn every_place_lies_in_one_slice() {
    for n in [1i32, 3, 7, 64] {
        for i in 0..200 {
            let x = i as f32 / 200.0;
            let holds = (1..=n)
                .filter(|k| f(edge_of(*k - 1, n)) <= x && x < f(edge_of(*k, n)))
                .count();
            assert_eq!(holds, 1);
        }
    }
}
