use ffgl_plugins::host::{ParameterTypes, PluginType};
use ffgl_plugins::pulse_beam;
use ffgl_plugins::pulse_beam_3::{PulseBeam, NUM_PARAMS, PARAM_TRIGGER};
use ffgl_plugins::random::SEED;
use ffgl_plugins::single::Single;

fn s(x: f32) -> Single {
    Single { bits: x.to_bits() }
}

fn f(x: Single) -> f32 {
    f32::from_bits(x.bits)
}

struct Draws {
    state: u32,
}

impl Draws {
    fn next(&mut self) -> f32 {
        self.state ^= self.state << 13;
        self.state ^= self.state >> 17;
        self.state ^= self.state << 5;
        self.state as f32 / u32::MAX as f32
    }
}

fn under_way(b: &PulseBeam) -> usize {
    b.pulses.iter().filter(|p| p.active).count()
}

#[test]
fn beam_identity() {
    let info = PulseBeam::plugin_info();
    assert_eq!(&info.unique_id, b"PLB4");
    assert_eq!(&info.name, b"PulseBeam       ");
    assert_eq!(info.ty, PluginType::Source);
    assert_eq!(info.about, "Triggerable light pulse source");
    assert_eq!(info.description, "A line of light with configurable trail");
    let other = pulse_beam::PulseBeam::plugin_info();
    assert_eq!(&other.unique_id, b"PLBM");
    assert_eq!(&other.name, b"PulseBeam       ");
    assert_eq!(other.ty, PluginType::Source);
    assert_eq!(other.about, "Triggerable light pulse source with MQTT");
    assert_eq!(
        other.description,
        "A line of light that sweeps across the canvas with configurable trail, rotation, and MQTT trigger support."
    );
    assert_eq!(pulse_beam::PulseBeam::new(), pulse_beam::PulseBeam);
}

#[test]
fn beam_parameters_are_announced() {
    assert_eq!(PulseBeam::num_params(), 20);
    let names: Vec<&str> = (0..NUM_PARAMS).map(|i| PulseBeam::param_info(i).name).collect();
    assert_eq!(
        names,
        vec![
            "Trigger", "Auto Fire", "Jitter", "Speed", "Head Width", "Trail Length",
            "Trail Softness", "Segments", "Segment", "Expand After", "Expand Segment", "Color",
            "Color S", "Color B", "Color A", "Background", "Background S", "Background B",
            "Background A", "Clip",
        ]
    );
    let after = PulseBeam::param_info(9);
    assert_eq!(after.param_type, ParameterTypes::Integer);
    assert_eq!(after.max.map(f), Some(4096.0));
    assert_eq!(PulseBeam::param_info(7).max.map(f), Some(100.0));
    assert_eq!(PulseBeam::param_info(7).min.map(f), Some(1.0));
    assert_eq!(PulseBeam::param_info(19).param_type, ParameterTypes::Boolean);
}

#[test]
fn beam_starts_with_its_defaults() {
    let b = PulseBeam::new(17);
    for i in 0..NUM_PARAMS {
        let want = PulseBeam::param_info(i).default.map(f).unwrap_or(0.0);
        assert_eq!(f(b.get_param(i)), want);
    }
    assert_eq!(under_way(&b), 0);
    assert_eq!(b.pulses[3].start_time, 17);
    assert_eq!(f(b.pulses[3].speed_mul), 1.0);
    assert_eq!(b.rng_seed, SEED);
}

#[test]
fn beam_parameters_read_as_they_were_set() {
    for i in 0..NUM_PARAMS + 3 {
        let mut b = PulseBeam::new(0);
        let before: Vec<u32> = (0..NUM_PARAMS + 3).map(|j| b.get_param(j).bits).collect();
        b.set_param(i, s(0.4375), 0);
        for j in 0..NUM_PARAMS + 3 {
            let want = if i == j && i != PARAM_TRIGGER && i < NUM_PARAMS {
                0.4375f32.to_bits()
            } else {
                before[j]
            };
            assert_eq!(b.get_param(j).bits, want);
        }
    }
}

#[test]
fn trigger_sends_a_pulse() {
    let mut b = PulseBeam::new(0);
    b.set_param(2, s(0.6), 0);
    b.set_param(PARAM_TRIGGER, s(0.5), 5);
    assert_eq!(under_way(&b), 0);
    b.set_param(PARAM_TRIGGER, s(1.0), 1234);
    let r = Draws { state: SEED }.next();
    assert_eq!(under_way(&b), 1);
    assert!(b.pulses[0].active);
    assert_eq!(b.pulses[0].start_time, 1234);
    assert_eq!(b.pulses[0].speed_mul.bits, (1.0 + (r - 0.5) * 0.6f32).to_bits());
}

#[test]
fn new_pulses_displace_the_oldest() {
    let mut b = PulseBeam::new(0);
    for t in [80u64, 70, 60, 30, 40, 50, 20, 90] {
        b.fire_pulse(t);
    }
    assert_eq!(under_way(&b), 8);
    b.fire_pulse(100);
    assert_eq!(b.pulses[6].start_time, 100);
    b.fire_pulse(101);
    assert_eq!(b.pulses[3].start_time, 101);
    b.pulses[7].active = false;
    b.fire_pulse(102);
    assert_eq!(b.pulses[7].start_time, 102);
    assert_eq!(under_way(&b), 8);
}

#[test]
fn equal_starts_displace_the_first_pulse() {
    let mut b = PulseBeam::new(0);
    for t in [9u64, 5, 7, 5, 8, 5, 6, 9] {
        b.fire_pulse(t);
    }
    b.fire_pulse(10);
    assert_eq!(b.pulses[1].start_time, 10);
    b.fire_pulse(11);
    assert_eq!(b.pulses[3].start_time, 11);
    assert_eq!(b.pulses[5].start_time, 5);
}

#[test]
fn pulses_are_between_half_and_half_again_as_fast() {
    let mut b = PulseBeam::new(0);
    b.set_param(2, s(1.0), 0);
    for t in 0..300 {
        b.fire_pulse(t);
        for p in b.pulses.iter() {
            assert!((0.5..=1.5).contains(&f(p.speed_mul)));
        }
    }
}

#[test]
fn beam_sends_by_itself_and_keeps_the_pause() {
    let mut b = PulseBeam::new(0);
    let mut draws = Draws { state: SEED };
    b.set_param(2, s(0.5), 0);
    assert_eq!(b.pause().map(f), Some(1.0));
    b.auto_fire(1000, 1_000_000_000, 1001);
    draws.next();
    let r = draws.next();
    assert_eq!(under_way(&b), 1);
    assert_eq!(b.pulses[0].start_time, 1001);
    assert_eq!(b.last_auto_fire, Some(1000));
    let base = ((1.0f32 - 0.5) * 4.9 + 0.1) * 0.7;
    assert_eq!(b.next_auto_interval.bits, (base * (1.0 + (r - 0.5) * 0.5)).to_bits());
    b.auto_fire(1_000_000_999, 1_000_000_000, 7);
    assert_eq!(under_way(&b), 1);
    assert_eq!(b.last_auto_fire, Some(1000));
    b.auto_fire(1_000_001_000, 1_000_000_000, 8);
    assert_eq!(under_way(&b), 2);
    assert_eq!(b.last_auto_fire, Some(1_000_001_000));
    // An earlier clock counts as no time at all.
    b.auto_fire(5, 1, 9);
    assert_eq!(under_way(&b), 2);
    b.auto_fire(5, 0, 9);
    assert_eq!(under_way(&b), 3);
}

#[test]
fn beam_switched_off_forgets_its_last_pulse() {
    let mut b = PulseBeam::new(0);
    b.auto_fire(10, 1, 10);
    b.set_param(1, s(0.4), 0);
    assert!(b.pause().is_none());
    b.auto_fire(1 << 40, 1, 11);
    assert_eq!(under_way(&b), 1);
    assert_eq!(b.last_auto_fire, None);
    b.set_param(1, s(1.0), 0);
    b.auto_fire(12, u128::MAX, 12);
    assert_eq!(under_way(&b), 2);
}

#[test]
fn pause_is_at_least_the_shortest() {
    let mut b = PulseBeam::new(0);
    for (set, want) in [(0.01f32, 0.05f32), (f32::NAN, 0.05), (2.0, 2.0), (-1.0, 0.05)] {
        b.next_auto_interval = s(set);
        assert_eq!(b.pause().map(f), Some(want));
    }
}

#[test]
fn pulses_advance_and_end() {
    let mut b = PulseBeam::new(0);
    b.set_param(3, s(1.0), 0);
    b.fire_pulse(0);
    b.fire_pulse(0);
    let mut elapsed = [s(0.0); 8];
    elapsed[0] = s(0.05);
    elapsed[1] = s(0.125);
    let u = b.draw(&elapsed, 1080);
    assert_eq!(f(u.pulse_progress[0]), 0.05 / 0.1);
    assert_eq!(f(u.pulse_progress[1]), 0.125 / 0.1);
    assert_eq!(f(u.pulse_progress[2]), -1.0);
    assert_eq!(under_way(&b), 2);
    // With a trail of 0.3 a pulse is over beyond 1.3 of its way.
    elapsed[1] = s(0.14);
    let u = b.draw(&elapsed, 1080);
    assert_eq!(f(u.pulse_progress[1]), -1.0);
    assert!(!b.pulses[1].active);
    assert_eq!(under_way(&b), 1);
}

#[test]
fn progress_does_not_shrink() {
    let mut b = PulseBeam::new(0);
    b.fire_pulse(0);
    let mut last = 0.0;
    for i in 0..100 {
        let u = b.draw(&[s(i as f32 * 0.03); 8], 720);
        let p = f(u.pulse_progress[0]);
        assert!(p >= last);
        last = p;
    }
}

#[test]
fn ages_count_from_the_start() {
    let mut b = PulseBeam::new(0);
    b.fire_pulse(500);
    assert_eq!(b.age(0, 1700), 1200);
    assert_eq!(b.age(0, 400), 0);
    assert_eq!(b.age(1, 30), 30);
}

#[test]
fn narrow_and_wide_phases() {
    let mut b = PulseBeam::new(0);
    let none = [s(0.0); 8];
    let u = b.draw(&none, 1000);
    assert_eq!((f(u.start_min), f(u.start_max)), (0.0, 1.0));
    assert_eq!((f(u.expand_min), f(u.expand_max)), (0.0, 1.0));
    assert_eq!(f(u.expand_after), 0.0);
    assert_eq!(f(u.bg_clip), 1.0);
    b.set_param(7, s(4.0), 0);
    b.set_param(8, s(3.0), 0);
    b.set_param(9, s(250.0), 0);
    b.set_param(10, s(9.0), 0);
    let u = b.draw(&none, 1000);
    assert_eq!((f(u.start_min), f(u.start_max)), (0.5, 0.75));
    assert_eq!((f(u.expand_min), f(u.expand_max)), (0.75, 1.0));
    assert_eq!(f(u.expand_after), 0.25);
    let u = b.draw(&none, 0);
    assert_eq!(f(u.expand_after), 0.0);
    b.set_param(10, s(-2.0), 0);
    b.set_param(8, s(-1.0), 0);
    let u = b.draw(&none, 1000);
    assert_eq!((f(u.start_min), f(u.start_max)), (0.0, 0.25));
    assert_eq!((f(u.expand_min), f(u.expand_max)), (0.0, 1.0));
}

#[test]
fn shader_values_of_the_beam() {
    let mut b = PulseBeam::new(0);
    let u = b.draw(&[s(0.0); 8], 100);
    assert_eq!(f(u.head_width), 0.0);
    assert_eq!(f(u.trail_length), 0.3);
    assert_eq!(f(u.trail_softness), 0.5);
    assert_eq!((f(u.color.0), f(u.color.1), f(u.color.2), f(u.color.3)), (1.0, 1.0, 1.0, 1.0));
    assert_eq!((f(u.bg_color.0), f(u.bg_color.1), f(u.bg_color.2), f(u.bg_color.3)), (0.0, 0.0, 0.0, 1.0));
}

#[test]
fn fastest_pulses_follow_at_seven_tenths_of_a_crossing() {
    let mut b = PulseBeam::new(0);
    b.set_param(3, s(1.0), 0);
    b.auto_fire(0, 1_000_000_000, 0);
    assert_eq!(f(b.next_auto_interval), 0.1f32 * 0.7);
    assert_eq!(f(b.pulses[0].speed_mul), 1.0);
    let pause = std::time::Duration::from_secs_f32(f(b.pause().unwrap())).as_nanos();
    b.auto_fire(60_000_000, pause, 60_000_000);
    assert_eq!(under_way(&b), 1);
    b.auto_fire(80_000_000, pause, 80_000_000);
    assert_eq!(under_way(&b), 2);
}
