use ffgl_plugins::cloud_flash::{CloudFlash, Flash, NUM_PARAMS, PARAM_RATE, PARAM_TRIGGER};
use ffgl_plugins::host::{ParameterTypes, PluginType};
use ffgl_plugins::random::SEED;
use ffgl_plugins::single::Single;

fn s(x: f32) -> Single {
    Single { bits: x.to_bits() }
}

fn f(x: Single) -> f32 {
    f32::from_bits(x.bits)
}

struct Draws {
    state: u32,
}

impl Draws {
    fn next(&mut self) -> f32 {
        self.state ^= self.state << 13;
        self.state ^= self.state >> 17;
        self.state ^= self.state << 5;
        self.state as f32 / u32::MAX as f32
    }
}

fn alight(c: &CloudFlash) -> usize {
    c.flashes.iter().filter(|x| x.active).count()
}

#[test]
fn flash_identity() {
    let info = CloudFlash::plugin_info();
    assert_eq!(&info.unique_id, b"CLFL");
    assert_eq!(&info.name, b"CloudFlash      ");
    assert_eq!(info.ty, PluginType::Source);
    assert_eq!(info.about, "Triggerable lightning-flash generator");
    assert_eq!(info.description, "Noise-based flash that mimics lightning illuminating a cloud.");
}

#[test]
fn flash_parameters_are_announced() {
    assert_eq!(CloudFlash::num_params(), 18);
    let names: Vec<&str> = (0..NUM_PARAMS).map(|i| CloudFlash::param_info(i).name).collect();
    assert_eq!(
        names,
        vec![
            "Trigger", "Auto Fire", "Jitter", "Rate", "Strikes", "Strike Speed", "Decay",
            "Noise Scale", "Threshold", "Softness", "Color", "Color S", "Color B", "Color A",
            "Background", "Background S", "Background B", "Background A",
        ]
    );
    let defaults: Vec<Option<f32>> =
        (0..NUM_PARAMS).map(|i| CloudFlash::param_info(i).default.map(f)).collect();
    assert_eq!(
        defaults,
        vec![
            None, Some(1.0), Some(0.3), Some(0.3), Some(3.0), Some(0.7), Some(0.6), Some(0.4),
            Some(0.55), Some(0.1), Some(0.6), Some(0.15), Some(1.0), Some(1.0), Some(0.0),
            Some(0.0), Some(0.0), Some(1.0),
        ]
    );
    let strikes = CloudFlash::param_info(4);
    assert_eq!(strikes.param_type, ParameterTypes::Integer);
    assert_eq!(strikes.min.map(f), Some(1.0));
    assert_eq!(strikes.max.map(f), Some(10.0));
    assert_eq!(CloudFlash::param_info(0).param_type, ParameterTypes::Event);
    assert_eq!(CloudFlash::param_info(1).param_type, ParameterTypes::Boolean);
    assert_eq!(CloudFlash::param_info(2).param_type, ParameterTypes::Standard);
    assert_eq!(CloudFlash::param_info(10).param_type, ParameterTypes::Hue);
    assert_eq!(CloudFlash::param_info(15).param_type, ParameterTypes::Saturation);
    assert_eq!(CloudFlash::param_info(16).param_type, ParameterTypes::Brightness);
    assert_eq!(CloudFlash::param_info(17).param_type, ParameterTypes::Alpha);
    assert!(CloudFlash::param_info(17).elements.is_none());
}

#[test]
fn flash_starts_with_its_defaults() {
    let c = CloudFlash::new();
    for i in 0..NUM_PARAMS {
        let want = CloudFlash::param_info(i).default.map(f).unwrap_or(0.0);
        assert_eq!(f(c.get_param(i)), want);
    }
    assert_eq!(alight(&c), 0);
    assert_eq!(c.rng_seed, SEED);
    assert!(c.last_auto.is_none());
    assert_eq!(f(c.next_auto_interval), 1.0);
}

#[test]
fn flash_parameters_read_as_they_were_set() {
    for i in 0..NUM_PARAMS + 3 {
        let mut c = CloudFlash::new();
        let before: Vec<u32> = (0..NUM_PARAMS + 3).map(|j| c.get_param(j).bits).collect();
        c.set_param(i, s(0.4375), s(0.0));
        for j in 0..NUM_PARAMS + 3 {
            let want = if i == j && i != PARAM_TRIGGER && i < NUM_PARAMS {
                0.4375f32.to_bits()
            } else {
                before[j]
            };
            assert_eq!(c.get_param(j).bits, want);
        }
    }
}

#[test]
fn strike_durations_follow_the_speed() {
    let mut c = CloudFlash::new();
    for (speed, want) in [(0.0f32, 1.0f32), (1.0, 0.05), (0.7, (1.0f32 - 0.7) * 0.95 + 0.05)] {
        c.set_param(5, s(speed), s(0.0));
        assert_eq!(c.strike_duration().bits, want.to_bits());
    }
    let mut last = 2.0;
    for i in 0..=20 {
        c.set_param(5, s(i as f32 / 20.0), s(0.0));
        let d = f(c.strike_duration());
        assert!(d < last && (0.05..=1.0).contains(&d));
        last = d;
    }
}

#[test]
fn trigger_queues_its_strikes() {
    let mut c = CloudFlash::new();
    let mut draws = Draws { state: SEED };
    c.set_param(PARAM_TRIGGER, s(1.0), s(2.5));
    let dur: f32 = (1.0f32 - 0.7) * 0.95 + 0.05;
    let gap = dur * 1.3;
    for i in 0..3 {
        let r1 = draws.next();
        let r2 = draws.next();
        let x = c.flashes[i];
        assert!(x.active);
        assert_eq!(x.start.bits, (2.5f32 + i as f32 * gap).to_bits());
        assert_eq!(x.duration.bits, (dur * (1.0 + (r1 - 0.5) * 0.3)).max(0.02).to_bits());
        assert_eq!(x.seed.bits, r2.to_bits());
    }
    assert_eq!(alight(&c), 3);
    assert_eq!(c.rng_seed, draws.state);
    assert_eq!(f(c.flashes[0].start), 2.5);
    assert!(f(c.flashes[0].start) < f(c.flashes[1].start));
}

#[test]
fn trigger_needs_more_than_one_half() {
    let mut c = CloudFlash::new();
    c.set_param(PARAM_TRIGGER, s(0.5), s(0.0));
    assert_eq!(alight(&c), 0);
    c.set_param(PARAM_TRIGGER, s(f32::NAN), s(0.0));
    assert_eq!(alight(&c), 0);
    c.set_param(PARAM_TRIGGER, s(0.50001), s(0.0));
    assert_eq!(alight(&c), 3);
}

#[test]
fn trigger_lights_between_one_and_ten_strikes() {
    for (set, want) in [(0.0f32, 1usize), (-3.0, 1), (1.0, 1), (7.9, 7), (8.0, 8), (10.0, 10), (11.0, 10), (1e9, 10)] {
        let mut c = CloudFlash::new();
        c.set_param(4, s(set), s(0.0));
        c.set_param(PARAM_TRIGGER, s(1.0), s(0.0));
        assert_eq!(alight(&c), want);
    }
}

#[test]
fn full_slots_give_up_the_oldest_strike() {
    let mut c = CloudFlash::new();
    for i in 0..10 {
        c.spawn_flash(s(10.0 - i as f32), s(1.0), s(0.0));
    }
    assert_eq!(alight(&c), 10);
    c.spawn_flash(s(50.0), s(2.0), s(0.25));
    assert_eq!(f(c.flashes[9].start), 50.0);
    assert_eq!(f(c.flashes[9].duration), 2.0);
    assert_eq!(f(c.flashes[9].seed), 0.25);
    c.spawn_flash(s(51.0), s(2.0), s(0.25));
    assert_eq!(f(c.flashes[8].start), 51.0);
    assert_eq!(alight(&c), 10);
}

#[test]
fn idle_slots_are_taken_first() {
    let mut c = CloudFlash::new();
    for i in 0..10 {
        c.spawn_flash(s(i as f32), s(1.0), s(0.0));
    }
    c.flashes[5].active = false;
    c.spawn_flash(s(99.0), s(1.0), s(0.0));
    assert_eq!(f(c.flashes[5].start), 99.0);
    assert_eq!(f(c.flashes[0].start), 0.0);
}

#[test]
fn equal_starts_give_up_the_first_slot() {
    let mut c = CloudFlash::new();
    for _ in 0..10 {
        c.spawn_flash(s(3.0), s(1.0), s(0.0));
    }
    c.spawn_flash(s(4.0), s(1.0), s(0.0));
    assert_eq!(f(c.flashes[0].start), 4.0);
}

#[test]
fn starts_that_cannot_be_ordered_block_a_trigger() {
    let mut c = CloudFlash::new();
    assert!(c.may_fire(s(0.0)));
    let odd = Flash { active: true, start: s(f32::NAN), duration: s(1.0), seed: s(0.0) };
    c.flashes = [odd; 10];
    assert!(!c.may_fire(s(0.0)));
    c.flashes[3].active = false;
    // One idle slot is enough for one strike, not for three.
    assert!(!c.may_fire(s(0.0)));
    c.set_param(4, s(1.0), s(0.0));
    assert!(c.may_fire(s(0.0)));
}

#[test]
fn triggers_stay_possible() {
    let mut c = CloudFlash::new();
    for i in 0..200 {
        let now = s(i as f32 * 0.01);
        assert!(c.may_fire(now));
        c.fire_trigger(now);
        assert!(alight(&c) == 3 || i > 0);
    }
    assert_eq!(alight(&c), 10);
}

#[test]
fn first_frame_triggers_by_itself() {
    let mut c = CloudFlash::new();
    let mut draws = Draws { state: SEED };
    assert!(c.due(s(0.25)));
    let u = c.draw(s(0.25), s(0.25));
    for _ in 0..6 {
        draws.next();
    }
    let r = draws.next();
    let want = ((1.0f32 - 0.3) * 4.9 + 0.1) * (1.0 + (r - 0.5) * 0.3);
    assert_eq!(c.next_auto_interval.bits, want.to_bits());
    assert_eq!(c.last_auto.map(f), Some(0.25));
    assert_eq!(f(u.time), 0.25);
    assert_eq!(alight(&c), 3);
    for i in 0..10 {
        let x = c.flashes[i];
        if x.active {
            assert_eq!(u.flash_start[i].bits, x.start.bits);
            assert_eq!(u.flash_duration[i].bits, x.duration.bits);
            assert_eq!(u.flash_seed[i].bits, x.seed.bits);
        } else {
            assert_eq!(u.flash_duration[i].bits, 0);
            assert_eq!(u.flash_start[i].bits, 0);
            assert_eq!(u.flash_seed[i].bits, 0);
        }
    }
}

#[test]
fn frames_wait_for_the_interval() {
    let mut c = CloudFlash::new();
    c.draw(s(1.0), s(1.0));
    let wait = f(c.next_auto_interval);
    assert!(!c.due(s(1.0 + wait * 0.9)));
    assert!(c.due(s(1.0 + wait * 1.1)));
    let before = c.rng_seed;
    c.draw(s(1.0 + wait * 0.9), s(0.0));
    assert_eq!(c.rng_seed, before);
    assert_eq!(c.last_auto.map(f), Some(1.0));
    c.draw(s(1.0 + wait * 1.1), s(1.0 + wait * 1.1));
    assert_ne!(c.rng_seed, before);
}

#[test]
fn interval_is_never_below_the_briefest() {
    let mut c = CloudFlash::new();
    c.last_auto = Some(s(1.0));
    c.next_auto_interval = s(-4.0);
    assert!(!c.due(s(1.0)));
    assert!(c.due(s(1.0625)));
    c.next_auto_interval = s(f32::NAN);
    assert!(!c.due(s(1.03125)));
    assert!(c.due(s(1.0625)));
}

#[test]
fn switching_off_forgets_the_last_trigger() {
    let mut c = CloudFlash::new();
    c.draw(s(1.0), s(1.0));
    c.set_param(1, s(0.49), s(1.0));
    assert!(!c.due(s(100.0)));
    c.draw(s(1.5), s(1.5));
    assert!(c.last_auto.is_none());
    c.set_param(1, s(0.5), s(1.0));
    assert!(c.due(s(1.6)));
}

#[test]
fn strikes_go_out_when_they_are_over() {
    let mut c = CloudFlash::new();
    c.set_param(1, s(0.0), s(0.0));
    c.spawn_flash(s(1.0), s(0.5), s(0.1));
    c.spawn_flash(s(1.25), s(0.5), s(0.2));
    c.draw(s(1.5), s(0.0));
    assert_eq!(alight(&c), 2);
    let u = c.draw(s(1.625), s(0.0));
    assert_eq!(alight(&c), 1);
    assert!(!c.flashes[0].active);
    assert_eq!(f(c.flashes[0].start), 1.0);
    assert_eq!(f(u.flash_duration[0]), 0.0);
    assert_eq!(f(u.flash_duration[1]), 0.5);
}

#[test]
fn shader_values_of_the_flash() {
    let mut c = CloudFlash::new();
    c.set_param(1, s(0.0), s(0.0));
    let u = c.draw(s(0.0), s(0.0));
    assert_eq!(f(u.decay), 0.6);
    assert_eq!(f(u.noise_scale), 1.0 + 0.4f32 * 0.4 * 29.0);
    assert_eq!(f(u.threshold), 0.55);
    assert_eq!(f(u.softness), 0.1);
    assert_eq!(f(u.color.2), 1.0);
    assert_eq!(f(u.color.3), 1.0);
    let c3: f32 = 1.0 - 0.15;
    assert_eq!(f(u.color.0), c3);
    assert_eq!((f(u.bg_color.0), f(u.bg_color.1), f(u.bg_color.2), f(u.bg_color.3)), (0.0, 0.0, 0.0, 1.0));
    for (x, want) in [(0.0f32, 1.0f32), (1.0, 30.0), (0.5, 8.25)] {
        c.set_param(7, s(x), s(0.0));
        assert_eq!(f(c.draw(s(0.0), s(0.0)).noise_scale), want);
    }
}

#[test]
fn higher_rates_pause_less() {
    let mut last = 10.0;
    for i in 0..=10 {
        let mut c = CloudFlash::new();
        c.set_param(2, s(0.0), s(0.0));
        c.set_param(PARAM_RATE, s(i as f32 / 10.0), s(0.0));
        c.draw(s(0.0), s(0.0));
        let wait = f(c.next_auto_interval);
        assert!(wait < last);
        last = wait;
        if i == 0 {
            assert_eq!(wait, 5.0);
        }
        if i == 10 {
            assert_eq!(wait, 0.1);
        }
    }
}
