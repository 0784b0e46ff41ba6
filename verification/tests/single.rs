use ffgl_plugins::single::Single;

fn single(x: f32) -> Single {
    Single { bits: x.to_bits() }
}

fn same(ours: Single, native: f32) -> bool {
    if native.is_nan() {
        f32::from_bits(ours.bits).is_nan()
    } else {
        ours.bits == native.to_bits()
    }
}

/// Encodings at the edges of the format, and what a small generator gives.
fn samples(count: usize) -> Vec<f32> {
    let mut v: Vec<u32> = vec![
        0x0000_0000, 0x8000_0000, 0x0000_0001, 0x8000_0001, 0x007f_ffff, 0x0080_0000, 0x0080_0001,
        0x00ff_ffff, 0x0100_0000, 0x3f7f_ffff, 0x3f80_0000, 0x3f80_0001, 0xbf80_0000, 0x4b00_0000,
        0x4b7f_ffff, 0x4b80_0000, 0x4b80_0001, 0x7f7f_ffff, 0xff7f_ffff, 0x7f80_0000, 0xff80_0000,
        0x7fc0_0000, 0x7f80_0001, 0x4f00_0000, 0xcf00_0000, 0x4f80_0000, 0x4eff_ffff, 0x5f00_0000,
        0x3f00_0000, 0x3eff_ffff, 0x437f_0000, 0x4380_0000, 0x40c0_0000,
    ];
    let mut s: u32 = 0x1234_5678;
    while v.len() < count {
        s ^= s << 13;
        s ^= s >> 17;
        s ^= s << 5;
        v.push(s);
        // Numbers of everyday size as well.
        v.push(((s >> 3) as f32 / 1.0e7).to_bits());
        v.push((s as i32 as f32 / 65536.0).to_bits());
    }
    v.into_iter().map(f32::from_bits).collect()
}

#[test]
fn arithmetic_rounds_as_the_machine_does() {
    let v = samples(400);
    for &x in &v {
        for &y in &v {
            let (a, b) = (single(x), single(y));
            assert!(same(a.plus(b), x + y), "{x:e} + {y:e}");
            assert!(same(a.minus(b), x - y), "{x:e} - {y:e}");
            assert!(same(a.times(b), x * y), "{x:e} * {y:e}");
            assert!(same(a.over(b), x / y), "{x:e} / {y:e}");
            assert!(same(a.modulo(b), x % y), "{x:e} % {y:e}");
            assert!(same(a.modulo_positive(b), x.rem_euclid(y)), "{x:e} mod {y:e}");
        }
    }
}

#[test]
fn neighbours_and_cancellation_round_as_the_machine_does() {
    let v = samples(300);
    for &x in &v {
        for d in 0..40u32 {
            let y = f32::from_bits(x.to_bits().wrapping_sub(20).wrapping_add(d));
            let z = f32::from_bits(x.to_bits().wrapping_sub(d << 22));
            for w in [y, -y, z, -z] {
                assert!(same(single(x).plus(single(w)), x + w), "{x:e} + {w:e}");
                assert!(same(single(x).minus(single(w)), x - w), "{x:e} - {w:e}");
            }
        }
    }
}

#[test]
fn roots_round_as_the_machine_does() {
    for &x in &samples(20000) {
        assert!(same(single(x).root(), x.sqrt()), "sqrt {x:e}");
    }
    for n in 0..5000u32 {
        let x = n as f32;
        assert!(same(single(x).root(), x.sqrt()), "sqrt {x:e}");
    }
}

#[test]
fn order_is_that_of_the_machine() {
    let v = samples(400);
    for &x in &v {
        for &y in &v {
            let (a, b) = (single(x), single(y));
            assert_eq!(a.less(b), x < y);
            assert_eq!(a.at_most(b), x <= y);
            let top = f32::from_bits(a.larger(b).bits);
            assert!(top == x.max(y) || (top.is_nan() && x.max(y).is_nan()));
            if x <= y {
                let mid = single(0.75).clamped(a, b);
                assert!(same(mid, 0.75f32.clamp(x, y)));
            }
        }
        assert!(same(single(x).absolute(), x.abs()));
        assert!(same(single(x).opposite(), -x));
    }
    assert!(same(single(f32::NAN).clamped(single(0.0), single(1.0)), f32::NAN));
}

#[test]
fn conversions_are_those_of_the_machine() {
    for &x in &samples(20000) {
        assert_eq!(single(x).to_i32(), x as i32);
        assert_eq!(single(x).to_u32(), x as u32);
        assert_eq!(single(x).to_u8(), x as u8);
        let n = x.to_bits();
        assert!(same(Single::from_u64(n as u64), n as f32));
        assert!(same(Single::from_i32(n as i32), n as i32 as f32));
        let w = (n as u64).wrapping_mul(0x9e37_79b9_7f4a_7c15);
        assert!(same(Single::from_u64(w), w as f32));
    }
    for w in [0u64, 1, 16777215, 16777216, 16777217, 16777219, u64::MAX, u64::MAX - 1, 1 << 63] {
        assert!(same(Single::from_u64(w), w as f32));
    }
}
