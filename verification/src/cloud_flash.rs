//! A lightning flash behind clouds: a trigger queues a few strikes, each with its own
//! start, duration and pattern.
use crate::color::{hsv_to_rgb, rgb_or_grey, Hsba};
use crate::host::{
    unit_param, unit_range, whole_param, whole_range, ParamInfo, Parameter, ParameterTypes,
    PluginInfo, PluginType,
};
use crate::random::{fraction, fraction_of, next_state, variation, variation_of, xorshift, SEED};
use crate::single::{fadd, fle, flt, fmax, fmul, from_int, fsub, zero, Single};
use crate::slices::{setting, within};
use crate::slots::first_idle;
use vstd::prelude::*;

verus! {

pub const PARAM_TRIGGER: usize = 0;

pub const PARAM_AUTO_FIRE: usize = 1;

pub const PARAM_JITTER: usize = 2;

pub const PARAM_RATE: usize = 3;

pub const PARAM_STRIKES: usize = 4;

pub const PARAM_STRIKE_SPEED: usize = 5;

pub const PARAM_DECAY: usize = 6;

pub const PARAM_NOISE_SCALE: usize = 7;

pub const PARAM_THRESHOLD: usize = 8;

pub const PARAM_SOFTNESS: usize = 9;

pub const PARAM_COLOR_H: usize = 10;

pub const PARAM_COLOR_S: usize = 11;

pub const PARAM_COLOR_V: usize = 12;

pub const PARAM_COLOR_A: usize = 13;

pub const PARAM_BG_H: usize = 14;

pub const PARAM_BG_S: usize = 15;

pub const PARAM_BG_V: usize = 16;

pub const PARAM_BG_A: usize = 17;

/// How many parameters there are.
pub const NUM_PARAMS: usize = 18;

/// How many flashes can be alight.
pub const MAX_FLASHES: usize = 10;

/// The number one.
pub const ONE: u32 = 0x3f80_0000;

/// The number 0.5.
pub const HALF: u32 = 0x3f00_0000;

/// The number 0.95: by how many seconds the strike speed shortens a strike.
pub const STRIKE_SPAN: u32 = 0x3f73_3333;

/// The number 0.05: the seconds of the briefest strike, and the briefest pause between
/// triggers.
pub const BRIEFEST: u32 = 0x3d4c_cccd;

/// The number 1.3: strikes follow one another at this many durations.
pub const STAGGER: u32 = 0x3fa6_6666;

/// The number 0.02: no jitter makes a strike briefer.
pub const MIN_DURATION: u32 = 0x3ca3_d70a;

/// The number 4.9: by how many seconds the rate shortens the pause between triggers.
pub const RATE_SPAN: u32 = 0x409c_cccd;

/// The number 0.1: the seconds between triggers at the highest rate.
pub const RATE_MIN: u32 = 0x3dcc_cccd;

/// The number 29: how many features the noise scale adds across the picture.
pub const NOISE_SPAN: u32 = 0x41e8_0000;

/// One strike.
#[derive(Clone, Copy, Debug)]
pub struct Flash {
    pub active: bool,
    /// Seconds since the plugin started.
    pub start: Single,
    /// Seconds.
    pub duration: Single,
    /// A fraction that picks the pattern.
    pub seed: Single,
}

/// The parameters.
#[derive(Clone, Copy, Debug)]
pub struct Settings {
    pub auto_fire: Single,
    pub jitter: Single,
    pub rate: Single,
    pub strikes: Single,
    pub strike_speed: Single,
    pub decay: Single,
    pub noise_scale: Single,
    pub threshold: Single,
    pub softness: Single,
    pub color: Hsba,
    pub bg_color: Hsba,
}

/// The state of the plugin.
#[derive(Clone, Copy, Debug)]
pub struct CloudFlash {
    pub flashes: [Flash; 10],
    pub settings: Settings,
    pub rng_seed: u32,
    /// When the last trigger of its own was, in seconds.
    pub last_auto: Option<Single>,
    /// Seconds until the next one.
    pub next_auto_interval: Single,
}

/// What the shader is given.
#[derive(Clone, Copy, Debug)]
pub struct CloudUniforms {
    pub time: Single,
    pub flash_start: [Single; 10],
    pub flash_duration: [Single; 10],
    pub flash_seed: [Single; 10],
    pub decay: Single,
    pub noise_scale: Single,
    pub threshold: Single,
    pub softness: Single,
    pub color: (Single, Single, Single, Single),
    pub bg_color: (Single, Single, Single, Single),
}

/// What each parameter is.
pub open spec fn parameter(index: int) -> Parameter {
    if index == PARAM_TRIGGER {
        unit_range("Trigger"@, ParameterTypes::Event, None)
    } else if index == PARAM_AUTO_FIRE {
        unit_range("Auto Fire"@, ParameterTypes::Boolean, Some(Single { bits: 0x3f80_0000 }))
    } else if index == PARAM_JITTER {
        unit_range("Jitter"@, ParameterTypes::Standard, Some(Single { bits: 0x3e99_999a }))
    } else if index == PARAM_RATE {
        unit_range("Rate"@, ParameterTypes::Standard, Some(Single { bits: 0x3e99_999a }))
    } else if index == PARAM_STRIKES {
        whole_range("Strikes"@, 0x4040_0000, 0x3f80_0000, 0x4120_0000)
    } else if index == PARAM_STRIKE_SPEED {
        unit_range("Strike Speed"@, ParameterTypes::Standard, Some(Single { bits: 0x3f33_3333 }))
    } else if index == PARAM_DECAY {
        unit_range("Decay"@, ParameterTypes::Standard, Some(Single { bits: 0x3f19_999a }))
    } else if index == PARAM_NOISE_SCALE {
        unit_range("Noise Scale"@, ParameterTypes::Standard, Some(Single { bits: 0x3ecc_cccd }))
    } else if index == PARAM_THRESHOLD {
        unit_range("Threshold"@, ParameterTypes::Standard, Some(Single { bits: 0x3f0c_cccd }))
    } else if index == PARAM_SOFTNESS {
        unit_range("Softness"@, ParameterTypes::Standard, Some(Single { bits: 0x3dcc_cccd }))
    } else if index == PARAM_COLOR_H {
        unit_range("Color"@, ParameterTypes::Hue, Some(Single { bits: 0x3f19_999a }))
    } else if index == PARAM_COLOR_S {
        unit_range("Color S"@, ParameterTypes::Saturation, Some(Single { bits: 0x3e19_999a }))
    } else if index == PARAM_COLOR_V {
        unit_range("Color B"@, ParameterTypes::Brightness, Some(Single { bits: 0x3f80_0000 }))
    } else if index == PARAM_COLOR_A {
        unit_range("Color A"@, ParameterTypes::Alpha, Some(Single { bits: 0x3f80_0000 }))
    } else if index == PARAM_BG_H {
        unit_range("Background"@, ParameterTypes::Hue, Some(Single { bits: 0x0000_0000 }))
    } else if index == PARAM_BG_S {
        unit_range("Background S"@, ParameterTypes::Saturation, Some(Single { bits: 0x0000_0000 }))
    } else if index == PARAM_BG_V {
        unit_range("Background B"@, ParameterTypes::Brightness, Some(Single { bits: 0x0000_0000 }))
    } else {
        unit_range("Background A"@, ParameterTypes::Alpha, Some(Single { bits: 0x3f80_0000 }))
    }
}

/// The value of a parameter; zero for the trigger and for what is no parameter.
pub open spec fn param(s: Settings, index: int) -> Single {
    if index == PARAM_AUTO_FIRE {
        s.auto_fire
    } else if index == PARAM_JITTER {
        s.jitter
    } else if index == PARAM_RATE {
        s.rate
    } else if index == PARAM_STRIKES {
        s.strikes
    } else if index == PARAM_STRIKE_SPEED {
        s.strike_speed
    } else if index == PARAM_DECAY {
        s.decay
    } else if index == PARAM_NOISE_SCALE {
        s.noise_scale
    } else if index == PARAM_THRESHOLD {
        s.threshold
    } else if index == PARAM_SOFTNESS {
        s.softness
    } else if index == PARAM_COLOR_H {
        s.color.hue
    } else if index == PARAM_COLOR_S {
        s.color.saturation
    } else if index == PARAM_COLOR_V {
        s.color.brightness
    } else if index == PARAM_COLOR_A {
        s.color.alpha
    } else if index == PARAM_BG_H {
        s.bg_color.hue
    } else if index == PARAM_BG_S {
        s.bg_color.saturation
    } else if index == PARAM_BG_V {
        s.bg_color.brightness
    } else if index == PARAM_BG_A {
        s.bg_color.alpha
    } else {
        zero()
    }
}

/// The settings with one parameter changed; the trigger and what is no parameter change
/// nothing.
pub open spec fn with_param(s: Settings, index: int, value: Single) -> Settings {
    if index == PARAM_AUTO_FIRE {
        Settings { auto_fire: value, ..s }
    } else if index == PARAM_JITTER {
        Settings { jitter: value, ..s }
    } else if index == PARAM_RATE {
        Settings { rate: value, ..s }
    } else if index == PARAM_STRIKES {
        Settings { strikes: value, ..s }
    } else if index == PARAM_STRIKE_SPEED {
        Settings { strike_speed: value, ..s }
    } else if index == PARAM_DECAY {
        Settings { decay: value, ..s }
    } else if index == PARAM_NOISE_SCALE {
        Settings { noise_scale: value, ..s }
    } else if index == PARAM_THRESHOLD {
        Settings { threshold: value, ..s }
    } else if index == PARAM_SOFTNESS {
        Settings { softness: value, ..s }
    } else if index == PARAM_COLOR_H {
        Settings { color: Hsba { hue: value, ..s.color }, ..s }
    } else if index == PARAM_COLOR_S {
        Settings { color: Hsba { saturation: value, ..s.color }, ..s }
    } else if index == PARAM_COLOR_V {
        Settings { color: Hsba { brightness: value, ..s.color }, ..s }
    } else if index == PARAM_COLOR_A {
        Settings { color: Hsba { alpha: value, ..s.color }, ..s }
    } else if index == PARAM_BG_H {
        Settings { bg_color: Hsba { hue: value, ..s.bg_color }, ..s }
    } else if index == PARAM_BG_S {
        Settings { bg_color: Hsba { saturation: value, ..s.bg_color }, ..s }
    } else if index == PARAM_BG_V {
        Settings { bg_color: Hsba { brightness: value, ..s.bg_color }, ..s }
    } else if index == PARAM_BG_A {
        Settings { bg_color: Hsba { alpha: value, ..s.bg_color }, ..s }
    } else {
        s
    }
}

/// What the plugin starts with.
pub open spec fn initial_settings() -> Settings {
    Settings {
        auto_fire: Single { bits: 0x3f80_0000 },
        jitter: Single { bits: 0x3e99_999a },
        rate: Single { bits: 0x3e99_999a },
        strikes: Single { bits: 0x4040_0000 },
        strike_speed: Single { bits: 0x3f33_3333 },
        decay: Single { bits: 0x3f19_999a },
        noise_scale: Single { bits: 0x3ecc_cccd },
        threshold: Single { bits: 0x3f0c_cccd },
        softness: Single { bits: 0x3dcc_cccd },
        color: Hsba {
            hue: Single { bits: 0x3f19_999a },
            saturation: Single { bits: 0x3e19_999a },
            brightness: Single { bits: 0x3f80_0000 },
            alpha: Single { bits: 0x3f80_0000 },
        },
        bg_color: Hsba {
            hue: zero(),
            saturation: zero(),
            brightness: zero(),
            alpha: Single { bits: 0x3f80_0000 },
        },
    }
}

/// A slot without a strike.
pub open spec fn dark() -> Flash {
    Flash { active: false, start: zero(), duration: zero(), seed: zero() }
}

/// `base` varied by at most half of it, as the fraction `r` and the jitter say.
pub open spec fn jittered(base: Single, r: Single, jitter: Single) -> Single {
    fmul(base, variation(r, jitter))
}

/// The seconds that a strike lasts: one at the lowest strike speed, 0.05 at the highest.
pub open spec fn duration_of_strike(s: Settings) -> Single {
    fadd(
        fmul(fsub(Single { bits: ONE }, s.strike_speed), Single { bits: STRIKE_SPAN }),
        Single { bits: BRIEFEST },
    )
}

/// The seconds between triggers: five at the lowest rate, 0.1 at the highest.
pub open spec fn base_interval(s: Settings) -> Single {
    fadd(
        fmul(fsub(Single { bits: ONE }, s.rate), Single { bits: RATE_SPAN }),
        Single { bits: RATE_MIN },
    )
}

/// How many strikes a trigger queues.
pub open spec fn strike_count(s: Settings) -> int {
    within(setting(s.strikes), 1, MAX_FLASHES as int)
}

/// When strike `i` of a trigger at `now` starts.
pub open spec fn strike_start(s: Settings, now: Single, i: int) -> Single {
    fadd(now, fmul(from_int(i), fmul(duration_of_strike(s), Single { bits: STAGGER })))
}

/// Which slots hold a strike.
pub open spec fn taken(f: Seq<Flash>) -> Seq<bool> {
    f.map_values(|x: Flash| x.active)
}

/// Of the first `n` slots, the first one whose strike started earliest.
pub open spec fn oldest(f: Seq<Flash>, n: nat) -> int
    decreases n,
{
    if n <= 1 {
        0
    } else {
        let b: int = oldest(f, (n - 1) as nat);
        if flt(f[n - 1].start, f[b].start) {
            n - 1
        } else {
            b
        }
    }
}

/// The slot that a new strike takes: the first idle one, else the oldest.
pub open spec fn slot(f: Seq<Flash>) -> int {
    if first_idle(taken(f), 0) < f.len() {
        first_idle(taken(f), 0) as int
    } else {
        oldest(f, f.len())
    }
}

/// A new strike finds its slot: there is an idle one, or the starts can be ordered.
pub open spec fn can_spawn(f: Seq<Flash>) -> bool {
    first_idle(taken(f), 0) < f.len() || forall|i: int|
        0 <= i < f.len() ==> !(#[trigger] f[i]).start.is_nan()
}

/// What a trigger changes.
pub struct Burst {
    pub flashes: Seq<Flash>,
    pub rng: u32,
}

/// Strike `i` of a trigger at `now`, with its duration and its pattern drawn in turn.
pub open spec fn strike(s: Settings, rng: u32, now: Single, i: int) -> Flash {
    Flash {
        active: true,
        start: strike_start(s, now, i),
        duration: fmax(
            jittered(duration_of_strike(s), fraction(xorshift(rng)), s.jitter),
            Single { bits: MIN_DURATION },
        ),
        seed: fraction(xorshift(xorshift(rng))),
    }
}

/// The slots and the generator after the first `n` strikes of a trigger.
pub open spec fn burst(s: Settings, b: Burst, now: Single, n: nat) -> Burst
    decreases n,
{
    if n == 0 {
        b
    } else {
        let before = burst(s, b, now, (n - 1) as nat);
        Burst {
            flashes: before.flashes.update(
                slot(before.flashes),
                strike(s, before.rng, now, n - 1),
            ),
            rng: xorshift(xorshift(before.rng)),
        }
    }
}

/// The slots and the generator after a trigger at `now`.
pub open spec fn triggered(c: CloudFlash, now: Single) -> Burst {
    burst(
        c.settings,
        Burst { flashes: c.flashes@, rng: c.rng_seed },
        now,
        strike_count(c.settings) as nat,
    )
}

/// Every strike of a trigger at `now` finds its slot.
pub open spec fn can_fire(c: CloudFlash, now: Single) -> bool {
    forall|i: nat|
        i < strike_count(c.settings) ==> can_spawn(
            (#[trigger] burst(
                c.settings,
                Burst { flashes: c.flashes@, rng: c.rng_seed },
                now,
                i,
            )).flashes,
        )
}

/// The plugin is due to trigger itself at `now`.
pub open spec fn is_due(c: CloudFlash, now: Single) -> bool {
    &&& fle(Single { bits: HALF }, c.settings.auto_fire)
    &&& match c.last_auto {
        None => true,
        Some(t) => fle(fmax(c.next_auto_interval, Single { bits: BRIEFEST }), fsub(now, t)),
    }
}

/// A strike as it is at `now`: put out once its time is over.
pub open spec fn retired(f: Flash, now: Single) -> Flash {
    if f.active && flt(f.duration, fsub(now, f.start)) {
        Flash { active: false, ..f }
    } else {
        f
    }
}

/// A value of an active strike, zero in an idle slot.
pub open spec fn lit(f: Flash, value: Single) -> Single {
    if f.active {
        value
    } else {
        zero()
    }
}

/// The colour that the shader is given.
pub open spec fn shader_color(c: Hsba) -> (Single, Single, Single, Single) {
    let (r, g, b) = rgb_or_grey(c.hue, c.saturation, c.brightness);
    (r, g, b, c.alpha)
}

/// What the shader is given of the state `c` at `now`.
pub open spec fn uniforms_of(c: CloudFlash, now: Single, u: CloudUniforms) -> bool {
    &&& u.time == now
    &&& forall|i: int|
        0 <= i < MAX_FLASHES ==> #[trigger] u.flash_start[i] == lit(
            c.flashes[i],
            c.flashes[i].start,
        )
    &&& forall|i: int|
        0 <= i < MAX_FLASHES ==> #[trigger] u.flash_duration[i] == lit(
            c.flashes[i],
            c.flashes[i].duration,
        )
    &&& forall|i: int|
        0 <= i < MAX_FLASHES ==> #[trigger] u.flash_seed[i] == lit(c.flashes[i], c.flashes[i].seed)
    &&& u.decay == c.settings.decay
    &&& u.noise_scale == fadd(
        Single { bits: ONE },
        fmul(
            fmul(c.settings.noise_scale, c.settings.noise_scale),
            Single { bits: NOISE_SPAN },
        ),
    )
    &&& u.threshold == c.settings.threshold
    &&& u.softness == c.settings.softness
    &&& u.color == shader_color(c.settings.color)
    &&& u.bg_color == shader_color(c.settings.bg_color)
}

/// What a frame at `now` makes of the state `before`, and what the shader is given, where a
/// trigger of its own counts from `fired_at`.
pub open spec fn drawn(
    before: CloudFlash,
    now: Single,
    fired_at: Single,
    after: CloudFlash,
    u: CloudUniforms,
) -> bool {
    let b = if is_due(before, now) {
        triggered(before, fired_at)
    } else {
        Burst { flashes: before.flashes@, rng: before.rng_seed }
    };
    &&& forall|i: int|
        0 <= i < MAX_FLASHES ==> #[trigger] after.flashes[i] == retired(b.flashes[i], now)
    &&& after.settings == before.settings
    &&& is_due(before, now) ==> {
        &&& after.rng_seed == xorshift(b.rng)
        &&& after.last_auto == Some(now)
        &&& after.next_auto_interval == jittered(
            base_interval(before.settings),
            fraction(xorshift(b.rng)),
            before.settings.jitter,
        )
    }
    &&& !is_due(before, now) ==> {
        &&& after.rng_seed == before.rng_seed
        &&& after.last_auto == (if fle(Single { bits: HALF }, before.settings.auto_fire) {
            before.last_auto
        } else {
            None
        })
        &&& after.next_auto_interval == before.next_auto_interval
    }
    &&& uniforms_of(after, now, u)
}

/// What setting a parameter at `now` makes of the state `before`.
pub open spec fn is_set(
    before: CloudFlash,
    index: int,
    value: Single,
    now: Single,
    after: CloudFlash,
) -> bool {
    let fires = index == PARAM_TRIGGER && flt(Single { bits: HALF }, value);
    &&& fires ==> after.flashes@ == triggered(before, now).flashes && after.rng_seed == triggered(
        before,
        now,
    ).rng
    &&& !fires ==> after.flashes == before.flashes && after.rng_seed == before.rng_seed
    &&& after.settings == with_param(before.settings, index, value)
    &&& after.last_auto == before.last_auto
    &&& after.next_auto_interval == before.next_auto_interval
}

fn jitter_of(base: Single, r: Single, jitter: Single) -> (v: Single)
    ensures
        v == jittered(base, r, jitter),
{
    base.times(variation_of(r, jitter))
}

fn color_of(c: Hsba) -> (v: (Single, Single, Single, Single))
    ensures
        v == shader_color(c),
{
    let (r, g, b) = hsv_to_rgb(c.hue, c.saturation, c.brightness);
    (r, g, b, c.alpha)
}

impl CloudFlash {
    pub fn new() -> (c: CloudFlash)
        ensures
            c.flashes@ == Seq::new(MAX_FLASHES as nat, |i: int| dark()),
            c.settings == initial_settings(),
            c.rng_seed == SEED,
            c.last_auto is None,
            c.next_auto_interval == (Single { bits: ONE }),
    {
        let none = Flash {
            active: false,
            start: Single { bits: 0 },
            duration: Single { bits: 0 },
            seed: Single { bits: 0 },
        };
        let c = CloudFlash {
            flashes: [none; 10],
            settings: Settings {
                auto_fire: Single { bits: 0x3f80_0000 },
                jitter: Single { bits: 0x3e99_999a },
                rate: Single { bits: 0x3e99_999a },
                strikes: Single { bits: 0x4040_0000 },
                strike_speed: Single { bits: 0x3f33_3333 },
                decay: Single { bits: 0x3f19_999a },
                noise_scale: Single { bits: 0x3ecc_cccd },
                threshold: Single { bits: 0x3f0c_cccd },
                softness: Single { bits: 0x3dcc_cccd },
                color: Hsba {
                    hue: Single { bits: 0x3f19_999a },
                    saturation: Single { bits: 0x3e19_999a },
                    brightness: Single { bits: 0x3f80_0000 },
                    alpha: Single { bits: 0x3f80_0000 },
                },
                bg_color: Hsba {
                    hue: Single { bits: 0 },
                    saturation: Single { bits: 0 },
                    brightness: Single { bits: 0 },
                    alpha: Single { bits: 0x3f80_0000 },
                },
            },
            rng_seed: SEED,
            last_auto: None,
            next_auto_interval: Single { bits: ONE },
        };
        assert(c.flashes@ =~= Seq::new(MAX_FLASHES as nat, |i: int| dark()));
        c
    }

    pub fn plugin_info() -> (info: PluginInfo)
        ensures
            info.unique_id@ == seq![0x43u8, 0x4c, 0x46, 0x4c],
            info.name@ == seq![
                0x43u8, 0x6c, 0x6f, 0x75, 0x64, 0x46, 0x6c, 0x61, 0x73, 0x68, 0x20, 0x20, 0x20,
                0x20, 0x20, 0x20,
            ],
            info.ty == PluginType::Source,
            info.about@ == "Triggerable lightning-flash generator"@,
            info.description@
                == "Noise-based flash that mimics lightning illuminating a cloud."@,
    {
        let info = PluginInfo {
            unique_id: [0x43, 0x4c, 0x46, 0x4c],
            name: [
                0x43, 0x6c, 0x6f, 0x75, 0x64, 0x46, 0x6c, 0x61, 0x73, 0x68, 0x20, 0x20, 0x20, 0x20,
                0x20, 0x20,
            ],
            ty: PluginType::Source,
            about: "Triggerable lightning-flash generator",
            description: "Noise-based flash that mimics lightning illuminating a cloud.",
        };
        assert(info.unique_id@ =~= seq![0x43u8, 0x4c, 0x46, 0x4c]);
        assert(info.name@ =~= seq![
            0x43u8, 0x6c, 0x6f, 0x75, 0x64, 0x46, 0x6c, 0x61, 0x73, 0x68, 0x20, 0x20, 0x20, 0x20,
            0x20, 0x20,
        ]);
        info
    }

    pub fn num_params() -> (n: usize)
        ensures
            n == NUM_PARAMS,
    {
        NUM_PARAMS
    }

    pub fn param_info(index: usize) -> (info: ParamInfo)
        requires
            index < NUM_PARAMS,
        ensures
            info@ == parameter(index as int),
    {
        if index == PARAM_TRIGGER {
            unit_param("Trigger", ParameterTypes::Event, None)
        } else if index == PARAM_AUTO_FIRE {
            unit_param("Auto Fire", ParameterTypes::Boolean, Some(Single { bits: 0x3f80_0000 }))
        } else if index == PARAM_JITTER {
            unit_param("Jitter", ParameterTypes::Standard, Some(Single { bits: 0x3e99_999a }))
        } else if index == PARAM_RATE {
            unit_param("Rate", ParameterTypes::Standard, Some(Single { bits: 0x3e99_999a }))
        } else if index == PARAM_STRIKES {
            whole_param("Strikes", 0x4040_0000, 0x3f80_0000, 0x4120_0000)
        } else if index == PARAM_STRIKE_SPEED {
            unit_param("Strike Speed", ParameterTypes::Standard, Some(Single { bits: 0x3f33_3333 }))
        } else if index == PARAM_DECAY {
            unit_param("Decay", ParameterTypes::Standard, Some(Single { bits: 0x3f19_999a }))
        } else if index == PARAM_NOISE_SCALE {
            unit_param("Noise Scale", ParameterTypes::Standard, Some(Single { bits: 0x3ecc_cccd }))
        } else if index == PARAM_THRESHOLD {
            unit_param("Threshold", ParameterTypes::Standard, Some(Single { bits: 0x3f0c_cccd }))
        } else if index == PARAM_SOFTNESS {
            unit_param("Softness", ParameterTypes::Standard, Some(Single { bits: 0x3dcc_cccd }))
        } else if index == PARAM_COLOR_H {
            unit_param("Color", ParameterTypes::Hue, Some(Single { bits: 0x3f19_999a }))
        } else if index == PARAM_COLOR_S {
            unit_param("Color S", ParameterTypes::Saturation, Some(Single { bits: 0x3e19_999a }))
        } else if index == PARAM_COLOR_V {
            unit_param("Color B", ParameterTypes::Brightness, Some(Single { bits: 0x3f80_0000 }))
        } else if index == PARAM_COLOR_A {
            unit_param("Color A", ParameterTypes::Alpha, Some(Single { bits: 0x3f80_0000 }))
        } else if index == PARAM_BG_H {
            unit_param("Background", ParameterTypes::Hue, Some(Single { bits: 0x0000_0000 }))
        } else if index == PARAM_BG_S {
            unit_param("Background S", ParameterTypes::Saturation, Some(Single { bits: 0x0000_0000 }))
        } else if index == PARAM_BG_V {
            unit_param("Background B", ParameterTypes::Brightness, Some(Single { bits: 0x0000_0000 }))
        } else {
            unit_param("Background A", ParameterTypes::Alpha, Some(Single { bits: 0x3f80_0000 }))
        }
    }

    pub fn get_param(&self, index: usize) -> (v: Single)
        ensures
            v == param(self.settings, index as int),
    {
        if index == PARAM_AUTO_FIRE {
            self.settings.auto_fire
        } else if index == PARAM_JITTER {
            self.settings.jitter
        } else if index == PARAM_RATE {
            self.settings.rate
        } else if index == PARAM_STRIKES {
            self.settings.strikes
        } else if index == PARAM_STRIKE_SPEED {
            self.settings.strike_speed
        } else if index == PARAM_DECAY {
            self.settings.decay
        } else if index == PARAM_NOISE_SCALE {
            self.settings.noise_scale
        } else if index == PARAM_THRESHOLD {
            self.settings.threshold
        } else if index == PARAM_SOFTNESS {
            self.settings.softness
        } else if index == PARAM_COLOR_H {
            self.settings.color.hue
        } else if index == PARAM_COLOR_S {
            self.settings.color.saturation
        } else if index == PARAM_COLOR_V {
            self.settings.color.brightness
        } else if index == PARAM_COLOR_A {
            self.settings.color.alpha
        } else if index == PARAM_BG_H {
            self.settings.bg_color.hue
        } else if index == PARAM_BG_S {
            self.settings.bg_color.saturation
        } else if index == PARAM_BG_V {
            self.settings.bg_color.brightness
        } else if index == PARAM_BG_A {
            self.settings.bg_color.alpha
        } else {
            Single { bits: 0 }
        }
    }

    /// Sets a parameter. A value above one half of the trigger is a trigger at `now`.
    pub fn set_param(&mut self, index: usize, value: Single, now: Single)
        requires
            index == PARAM_TRIGGER && flt(Single { bits: HALF }, value) ==> can_fire(
                *old(self),
                now,
            ),
        ensures
            index == PARAM_TRIGGER && flt(Single { bits: HALF }, value) ==> {
                &&& final(self).flashes@ == triggered(*old(self), now).flashes
                &&& final(self).rng_seed == triggered(*old(self), now).rng
            },
            !(index == PARAM_TRIGGER && flt(Single { bits: HALF }, value)) ==> {
                &&& final(self).flashes == old(self).flashes
                &&& final(self).rng_seed == old(self).rng_seed
            },
            final(self).settings == with_param(old(self).settings, index as int, value),
            final(self).last_auto == old(self).last_auto,
            final(self).next_auto_interval == old(self).next_auto_interval,
            is_set(*old(self), index as int, value, now, *final(self)),
    {
        if index == PARAM_TRIGGER {
            if (Single { bits: HALF }).less(value) {
                self.fire_trigger(now);
            }
        } else if index == PARAM_AUTO_FIRE {
            self.settings.auto_fire = value;
        } else if index == PARAM_JITTER {
            self.settings.jitter = value;
        } else if index == PARAM_RATE {
            self.settings.rate = value;
        } else if index == PARAM_STRIKES {
            self.settings.strikes = value;
        } else if index == PARAM_STRIKE_SPEED {
            self.settings.strike_speed = value;
        } else if index == PARAM_DECAY {
            self.settings.decay = value;
        } else if index == PARAM_NOISE_SCALE {
            self.settings.noise_scale = value;
        } else if index == PARAM_THRESHOLD {
            self.settings.threshold = value;
        } else if index == PARAM_SOFTNESS {
            self.settings.softness = value;
        } else if index == PARAM_COLOR_H {
            self.settings.color.hue = value;
        } else if index == PARAM_COLOR_S {
            self.settings.color.saturation = value;
        } else if index == PARAM_COLOR_V {
            self.settings.color.brightness = value;
        } else if index == PARAM_COLOR_A {
            self.settings.color.alpha = value;
        } else if index == PARAM_BG_H {
            self.settings.bg_color.hue = value;
        } else if index == PARAM_BG_S {
            self.settings.bg_color.saturation = value;
        } else if index == PARAM_BG_V {
            self.settings.bg_color.brightness = value;
        } else if index == PARAM_BG_A {
            self.settings.bg_color.alpha = value;
        }
    }

    /// Moves the generator on and gives its fraction.
    fn next_rand(&mut self) -> (r: Single)
        ensures
            r == fraction(xorshift(old(self).rng_seed)),
            final(self).rng_seed == xorshift(old(self).rng_seed),
            final(self).flashes == old(self).flashes,
            final(self).settings == old(self).settings,
            final(self).last_auto == old(self).last_auto,
            final(self).next_auto_interval == old(self).next_auto_interval,
    {
        self.rng_seed = next_state(self.rng_seed);
        fraction_of(self.rng_seed)
    }

    /// The seconds that a strike lasts.
    pub fn strike_duration(&self) -> (d: Single)
        ensures
            d == duration_of_strike(self.settings),
    {
        Single { bits: ONE }.minus(self.settings.strike_speed).times(
            Single { bits: STRIKE_SPAN },
        ).plus(Single { bits: BRIEFEST })
    }

    fn strikes_per_trigger(&self) -> (n: usize)
        ensures
            n == strike_count(self.settings),
            1 <= n <= MAX_FLASHES,
    {
        let k: i32 = self.settings.strikes.to_i32();
        if k < 1 {
            1
        } else if k > 10 {
            10
        } else {
            k as usize
        }
    }

    fn has_slot(&self) -> (b: bool)
        ensures
            b == can_spawn(self.flashes@),
    {
        let mut i: usize = 0;
        while i < 10 && self.flashes[i].active
            invariant
                i <= 10,
                first_idle(taken(self.flashes@), 0) == first_idle(taken(self.flashes@), i as nat),
            decreases 10 - i,
        {
            i = i + 1;
        }
        if i < 10 {
            return true;
        }
        let mut j: usize = 0;
        while j < 10
            invariant
                j <= 10,
                first_idle(taken(self.flashes@), 0) == 10,
                forall|k: int| 0 <= k < j ==> !(#[trigger] self.flashes[k]).start.is_nan(),
            decreases 10 - j,
        {
            if self.flashes[j].start.not_a_number() {
                assert(self.flashes@[j as int].start.is_nan());
                return false;
            }
            j = j + 1;
        }
        true
    }

    /// Puts a strike into the first idle slot, else into that of the oldest strike.
    pub fn spawn_flash(&mut self, start: Single, duration: Single, seed: Single)
        requires
            can_spawn(old(self).flashes@),
        ensures
            final(self).flashes@ == old(self).flashes@.update(
                slot(old(self).flashes@),
                Flash { active: true, start, duration, seed },
            ),
            final(self).settings == old(self).settings,
            final(self).rng_seed == old(self).rng_seed,
            final(self).last_auto == old(self).last_auto,
            final(self).next_auto_interval == old(self).next_auto_interval,
    {
        let mut at: usize = 0;
        while at < 10 && self.flashes[at].active
            invariant
                at <= 10,
                *self == *old(self),
                first_idle(taken(self.flashes@), 0) == first_idle(taken(self.flashes@), at as nat),
            decreases 10 - at,
        {
            at = at + 1;
        }
        if at == 10 {
            at = 0;
            let mut n: usize = 1;
            while n < 10
                invariant
                    1 <= n <= 10,
                    *self == *old(self),
                    at < n,
                    at == oldest(self.flashes@, n as nat),
                decreases 10 - n,
            {
                if self.flashes[n].start.less(self.flashes[at].start) {
                    at = n;
                }
                n = n + 1;
            }
        }
        self.flashes[at] = Flash { active: true, start, duration, seed };
    }

    /// One strike of a trigger.
    fn strike_once(&mut self, now: Single, i: usize)
        requires
            can_spawn(old(self).flashes@),
        ensures
            final(self).flashes@ == old(self).flashes@.update(
                slot(old(self).flashes@),
                strike(old(self).settings, old(self).rng_seed, now, i as int),
            ),
            final(self).rng_seed == xorshift(xorshift(old(self).rng_seed)),
            final(self).settings == old(self).settings,
            final(self).last_auto == old(self).last_auto,
            final(self).next_auto_interval == old(self).next_auto_interval,
    {
        let dur = self.strike_duration();
        let gap = dur.times(Single { bits: STAGGER });
        let r1 = self.next_rand();
        let r2 = self.next_rand();
        let varied = jitter_of(dur, r1, self.settings.jitter);
        let start = now.plus(Single::from_u64(i as u64).times(gap));
        self.spawn_flash(start, varied.larger(Single { bits: MIN_DURATION }), r2);
    }

    /// Queues the strikes of a trigger: staggered, so that they read as separate flashes,
    /// each with its own pattern.
    pub fn fire_trigger(&mut self, now: Single)
        requires
            can_fire(*old(self), now),
        ensures
            final(self).flashes@ == triggered(*old(self), now).flashes,
            final(self).rng_seed == triggered(*old(self), now).rng,
            final(self).settings == old(self).settings,
            final(self).last_auto == old(self).last_auto,
            final(self).next_auto_interval == old(self).next_auto_interval,
    {
        let n: usize = self.strikes_per_trigger();
        let ghost b = Burst { flashes: self.flashes@, rng: self.rng_seed };
        let mut i: usize = 0;
        while i < n
            invariant
                i <= n,
                n == strike_count(old(self).settings),
                can_fire(*old(self), now),
                b == (Burst { flashes: old(self).flashes@, rng: old(self).rng_seed }),
                self.flashes@ == burst(old(self).settings, b, now, i as nat).flashes,
                self.rng_seed == burst(old(self).settings, b, now, i as nat).rng,
                self.settings == old(self).settings,
                self.last_auto == old(self).last_auto,
                self.next_auto_interval == old(self).next_auto_interval,
            decreases n - i,
        {
            assert(can_spawn(burst(old(self).settings, b, now, i as nat).flashes));
            self.strike_once(now, i);
            i = i + 1;
        }
    }

    /// Whether every strike of a trigger at `now` finds its slot.
    pub fn may_fire(&self, now: Single) -> (b: bool)
        ensures
            b == can_fire(*self, now),
    {
        let n: usize = self.strikes_per_trigger();
        let mut trial = *self;
        let ghost b = Burst { flashes: self.flashes@, rng: self.rng_seed };
        let mut i: usize = 0;
        while i < n
            invariant
                i <= n,
                n == strike_count(self.settings),
                b == (Burst { flashes: self.flashes@, rng: self.rng_seed }),
                trial.flashes@ == burst(self.settings, b, now, i as nat).flashes,
                trial.rng_seed == burst(self.settings, b, now, i as nat).rng,
                trial.settings == self.settings,
                forall|j: nat|
                    j < i ==> can_spawn((#[trigger] burst(self.settings, b, now, j)).flashes),
            decreases n - i,
        {
            if !trial.has_slot() {
                assert(!can_spawn(burst(self.settings, b, now, i as nat).flashes));
                return false;
            }
            trial.strike_once(now, i);
            i = i + 1;
        }
        true
    }

    /// Whether the plugin is due to trigger itself.
    pub fn due(&self, now: Single) -> (b: bool)
        ensures
            b == is_due(*self, now),
    {
        if !(Single { bits: HALF }).at_most(self.settings.auto_fire) {
            return false;
        }
        match self.last_auto {
            None => true,
            Some(t) => self.next_auto_interval.larger(Single { bits: BRIEFEST }).at_most(
                now.minus(t),
            ),
        }
    }

    /// Puts out the strikes whose time is over.
    fn retire(&mut self, now: Single)
        ensures
            forall|i: int|
                0 <= i < MAX_FLASHES ==> #[trigger] final(self).flashes[i] == retired(
                    old(self).flashes[i],
                    now,
                ),
            final(self).settings == old(self).settings,
            final(self).rng_seed == old(self).rng_seed,
            final(self).last_auto == old(self).last_auto,
            final(self).next_auto_interval == old(self).next_auto_interval,
    {
        let mut i: usize = 0;
        while i < 10
            invariant
                i <= 10,
                forall|j: int|
                    0 <= j < i ==> #[trigger] self.flashes[j] == retired(
                        old(self).flashes[j],
                        now,
                    ),
                forall|j: int|
                    i <= j < MAX_FLASHES ==> #[trigger] self.flashes[j] == old(self).flashes[j],
                self.settings == old(self).settings,
                self.rng_seed == old(self).rng_seed,
                self.last_auto == old(self).last_auto,
                self.next_auto_interval == old(self).next_auto_interval,
            decreases 10 - i,
        {
            let f = self.flashes[i];
            if f.active && f.duration.less(now.minus(f.start)) {
                self.flashes[i] = Flash { active: false, ..f };
            }
            i = i + 1;
        }
    }

    /// The values for the shader.
    fn uniforms(&self, now: Single) -> (u: CloudUniforms)
        ensures
            uniforms_of(*self, now, u),
    {
        let none = Single { bits: 0 };
        let mut starts = [none; 10];
        let mut durations = [none; 10];
        let mut seeds = [none; 10];
        let mut i: usize = 0;
        while i < 10
            invariant
                i <= 10,
                forall|j: int|
                    0 <= j < i ==> #[trigger] starts[j] == lit(
                        self.flashes[j],
                        self.flashes[j].start,
                    ),
                forall|j: int|
                    0 <= j < i ==> #[trigger] durations[j] == lit(
                        self.flashes[j],
                        self.flashes[j].duration,
                    ),
                forall|j: int|
                    0 <= j < i ==> #[trigger] seeds[j] == lit(
                        self.flashes[j],
                        self.flashes[j].seed,
                    ),
                forall|j: int| i <= j < MAX_FLASHES ==> #[trigger] starts[j] == zero(),
                forall|j: int| i <= j < MAX_FLASHES ==> #[trigger] durations[j] == zero(),
                forall|j: int| i <= j < MAX_FLASHES ==> #[trigger] seeds[j] == zero(),
            decreases 10 - i,
        {
            let f = self.flashes[i];
            if f.active {
                starts[i] = f.start;
                durations[i] = f.duration;
                seeds[i] = f.seed;
            }
            i = i + 1;
        }
        let s = self.settings;
        CloudUniforms {
            time: now,
            flash_start: starts,
            flash_duration: durations,
            flash_seed: seeds,
            decay: s.decay,
            noise_scale: Single { bits: ONE }.plus(
                s.noise_scale.times(s.noise_scale).times(Single { bits: NOISE_SPAN }),
            ),
            threshold: s.threshold,
            softness: s.softness,
            color: color_of(s.color),
            bg_color: color_of(s.bg_color),
        }
    }

    /// One frame at `now`: triggers itself where it is due, its strikes counted from
    /// `fired_at`, puts out what is over and gives the values for the shader.
    pub fn draw(&mut self, now: Single, fired_at: Single) -> (u: CloudUniforms)
        requires
            is_due(*old(self), now) ==> can_fire(*old(self), fired_at),
        ensures
            is_due(*old(self), now) ==> {
                let b = triggered(*old(self), fired_at);
                &&& forall|i: int|
                    0 <= i < MAX_FLASHES ==> #[trigger] final(self).flashes[i] == retired(
                        b.flashes[i],
                        now,
                    )
                &&& final(self).rng_seed == xorshift(b.rng)
                &&& final(self).last_auto == Some(now)
                &&& final(self).next_auto_interval == jittered(
                    base_interval(old(self).settings),
                    fraction(xorshift(b.rng)),
                    old(self).settings.jitter,
                )
            },
            !is_due(*old(self), now) ==> {
                &&& forall|i: int|
                    0 <= i < MAX_FLASHES ==> #[trigger] final(self).flashes[i] == retired(
                        old(self).flashes[i],
                        now,
                    )
                &&& final(self).rng_seed == old(self).rng_seed
                &&& final(self).last_auto == (if fle(
                    Single { bits: HALF },
                    old(self).settings.auto_fire,
                ) {
                    old(self).last_auto
                } else {
                    None
                })
                &&& final(self).next_auto_interval == old(self).next_auto_interval
            },
            final(self).settings == old(self).settings,
            uniforms_of(*final(self), now, u),
            drawn(*old(self), now, fired_at, *final(self), u),
    {
        if self.due(now) {
            self.fire_trigger(fired_at);
            self.last_auto = Some(now);
            let base = Single { bits: ONE }.minus(self.settings.rate).times(
                Single { bits: RATE_SPAN },
            ).plus(Single { bits: RATE_MIN });
            let r = self.next_rand();
            self.next_auto_interval = jitter_of(base, r, self.settings.jitter);
        } else if !(Single { bits: HALF }).at_most(self.settings.auto_fire) {
            self.last_auto = None;
        }
        self.retire(now);
        self.uniforms(now)
    }
}

} // verus!
