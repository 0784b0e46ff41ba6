//! A beam of light: each trigger sends a pulse across the picture, at first within one
//! slice of its width, then within another or all of it.
use crate::color::{hsb_to_rgb, rgb, Hsba};
use crate::host::{
    unit_param, unit_range, whole_param, whole_range, ParamInfo, Parameter, ParameterTypes,
    PluginInfo, PluginType,
};
use crate::random::{fraction, fraction_of, next_state, variation, variation_of, xorshift, SEED};
use crate::single::{fadd, fdiv, fle, flt, fmax, fmul, from_int, fsub, zero, Single};
use crate::slices::{count_slices, edge, edge_of, pick_slice, setting, slice_count, within};
use crate::slots::first_idle;
use vstd::prelude::*;

verus! {

pub const PARAM_TRIGGER: usize = 0;

pub const PARAM_AUTO_FIRE: usize = 1;

pub const PARAM_JITTER: usize = 2;

pub const PARAM_SPEED: usize = 3;

pub const PARAM_HEAD_WIDTH: usize = 4;

pub const PARAM_TRAIL_LENGTH: usize = 5;

pub const PARAM_TRAIL_SOFTNESS: usize = 6;

pub const PARAM_SEGMENTS: usize = 7;

pub const PARAM_SEGMENT: usize = 8;

pub const PARAM_EXPAND_AFTER: usize = 9;

pub const PARAM_EXPAND_SEGMENT: usize = 10;

pub const PARAM_COLOR_H: usize = 11;

pub const PARAM_COLOR_S: usize = 12;

pub const PARAM_COLOR_V: usize = 13;

pub const PARAM_COLOR_A: usize = 14;

pub const PARAM_BG_H: usize = 15;

pub const PARAM_BG_S: usize = 16;

pub const PARAM_BG_V: usize = 17;

pub const PARAM_BG_A: usize = 18;

pub const PARAM_BG_CLIP: usize = 19;

/// How many parameters there are.
pub const NUM_PARAMS: usize = 20;

/// How many pulses can be under way.
pub const MAX_PULSES: usize = 8;

/// The number one.
pub const ONE: u32 = 0x3f80_0000;

/// The number -1: the progress of no pulse.
pub const NONE_UNDER_WAY: u32 = 0xbf80_0000;

/// The number 0.5.
pub const HALF: u32 = 0x3f00_0000;

/// The number 4.9: by how many seconds the speed shortens a crossing.
pub const SPEED_SPAN: u32 = 0x409c_cccd;

/// The number 0.1: the seconds of the fastest crossing.
pub const FASTEST: u32 = 0x3dcc_cccd;

/// The number 0.7: a pulse follows the one before after this part of its crossing.
pub const OVERLAP: u32 = 0x3f33_3333;

/// The number 0.05: the shortest pause in seconds.
pub const MIN_PAUSE: u32 = 0x3d4c_cccd;

/// One pulse.
#[derive(Clone, Copy, Debug)]
pub struct Pulse {
    pub active: bool,
    /// Nanoseconds on the clock of the caller.
    pub start_time: u64,
    /// How much faster than usual the pulse is.
    pub speed_mul: Single,
}

/// The parameters.
#[derive(Clone, Copy, Debug)]
pub struct Settings {
    pub speed: Single,
    pub head_width: Single,
    pub trail_length: Single,
    pub trail_softness: Single,
    pub color: Hsba,
    pub bg_color: Hsba,
    pub bg_clip: Single,
    pub segments: Single,
    pub segment: Single,
    pub expand_after: Single,
    pub expand_segment: Single,
    pub auto_fire: Single,
    pub jitter: Single,
}

/// The state of the plugin.
#[derive(Clone, Copy, Debug)]
pub struct PulseBeam {
    pub pulses: [Pulse; 8],
    pub settings: Settings,
    pub rng_seed: u32,
    /// When the plugin last sent a pulse by itself, in nanoseconds.
    pub last_auto_fire: Option<u64>,
    /// Seconds until it sends the next one.
    pub next_auto_interval: Single,
}

/// What the shader is given.
#[derive(Clone, Copy, Debug)]
pub struct BeamUniforms {
    pub pulse_progress: [Single; 8],
    pub head_width: Single,
    pub trail_length: Single,
    pub trail_softness: Single,
    pub color: (Single, Single, Single, Single),
    pub bg_color: (Single, Single, Single, Single),
    pub start_min: Single,
    pub start_max: Single,
    pub expand_after: Single,
    pub expand_min: Single,
    pub expand_max: Single,
    pub bg_clip: Single,
}

/// What each parameter is.
pub open spec fn parameter(index: int) -> Parameter {
    if index == PARAM_TRIGGER {
        unit_range("Trigger"@, ParameterTypes::Event, None)
    } else if index == PARAM_AUTO_FIRE {
        unit_range("Auto Fire"@, ParameterTypes::Boolean, Some(Single { bits: 0x3f80_0000 }))
    } else if index == PARAM_JITTER {
        unit_range("Jitter"@, ParameterTypes::Standard, Some(Single { bits: 0x0000_0000 }))
    } else if index == PARAM_SPEED {
        unit_range("Speed"@, ParameterTypes::Standard, Some(Single { bits: 0x3f00_0000 }))
    } else if index == PARAM_HEAD_WIDTH {
        unit_range("Head Width"@, ParameterTypes::Standard, Some(Single { bits: 0x0000_0000 }))
    } else if index == PARAM_TRAIL_LENGTH {
        unit_range("Trail Length"@, ParameterTypes::Standard, Some(Single { bits: 0x3e99_999a }))
    } else if index == PARAM_TRAIL_SOFTNESS {
        unit_range("Trail Softness"@, ParameterTypes::Standard, Some(Single { bits: 0x3f00_0000 }))
    } else if index == PARAM_SEGMENTS {
        whole_range("Segments"@, 0x3f80_0000, 0x3f80_0000, 0x42c8_0000)
    } else if index == PARAM_SEGMENT {
        whole_range("Segment"@, 0x3f80_0000, 0x3f80_0000, 0x42c8_0000)
    } else if index == PARAM_EXPAND_AFTER {
        whole_range("Expand After"@, 0x0000_0000, 0x0000_0000, 0x4580_0000)
    } else if index == PARAM_EXPAND_SEGMENT {
        whole_range("Expand Segment"@, 0x0000_0000, 0x0000_0000, 0x42c8_0000)
    } else if index == PARAM_COLOR_H {
        unit_range("Color"@, ParameterTypes::Hue, Some(Single { bits: 0x0000_0000 }))
    } else if index == PARAM_COLOR_S {
        unit_range("Color S"@, ParameterTypes::Saturation, Some(Single { bits: 0x0000_0000 }))
    } else if index == PARAM_COLOR_V {
        unit_range("Color B"@, ParameterTypes::Brightness, Some(Single { bits: 0x3f80_0000 }))
    } else if index == PARAM_COLOR_A {
        unit_range("Color A"@, ParameterTypes::Alpha, Some(Single { bits: 0x3f80_0000 }))
    } else if index == PARAM_BG_H {
        unit_range("Background"@, ParameterTypes::Hue, Some(Single { bits: 0x0000_0000 }))
    } else if index == PARAM_BG_S {
        unit_range("Background S"@, ParameterTypes::Saturation, Some(Single { bits: 0x0000_0000 }))
    } else if index == PARAM_BG_V {
        unit_range("Background B"@, ParameterTypes::Brightness, Some(Single { bits: 0x0000_0000 }))
    } else if index == PARAM_BG_A {
        unit_range("Background A"@, ParameterTypes::Alpha, Some(Single { bits: 0x3f80_0000 }))
    } else {
        unit_range("Clip"@, ParameterTypes::Boolean, Some(Single { bits: 0x3f80_0000 }))
    }
}

/// The value of a parameter; zero for the trigger and for what is no parameter.
pub open spec fn param(s: Settings, index: int) -> Single {
    if index == PARAM_AUTO_FIRE {
        s.auto_fire
    } else if index == PARAM_JITTER {
        s.jitter
    } else if index == PARAM_SPEED {
        s.speed
    } else if index == PARAM_HEAD_WIDTH {
        s.head_width
    } else if index == PARAM_TRAIL_LENGTH {
        s.trail_length
    } else if index == PARAM_TRAIL_SOFTNESS {
        s.trail_softness
    } else if index == PARAM_SEGMENTS {
        s.segments
    } else if index == PARAM_SEGMENT {
        s.segment
    } else if index == PARAM_EXPAND_AFTER {
        s.expand_after
    } else if index == PARAM_EXPAND_SEGMENT {
        s.expand_segment
    } else if index == PARAM_COLOR_H {
        s.color.hue
    } else if index == PARAM_COLOR_S {
        s.color.saturation
    } else if index == PARAM_COLOR_V {
        s.color.brightness
    } else if index == PARAM_COLOR_A {
        s.color.alpha
    } else if index == PARAM_BG_H {
        s.bg_color.hue
    } else if index == PARAM_BG_S {
        s.bg_color.saturation
    } else if index == PARAM_BG_V {
        s.bg_color.brightness
    } else if index == PARAM_BG_A {
        s.bg_color.alpha
    } else if index == PARAM_BG_CLIP {
        s.bg_clip
    } else {
        zero()
    }
}

/// The settings with one parameter changed; the trigger and what is no parameter change
/// nothing.
pub open spec fn with_param(s: Settings, index: int, value: Single) -> Settings {
    if index == PARAM_AUTO_FIRE {
        Settings { auto_fire: value, ..s }
    } else if index == PARAM_JITTER {
        Settings { jitter: value, ..s }
    } else if index == PARAM_SPEED {
        Settings { speed: value, ..s }
    } else if index == PARAM_HEAD_WIDTH {
        Settings { head_width: value, ..s }
    } else if index == PARAM_TRAIL_LENGTH {
        Settings { trail_length: value, ..s }
    } else if index == PARAM_TRAIL_SOFTNESS {
        Settings { trail_softness: value, ..s }
    } else if index == PARAM_SEGMENTS {
        Settings { segments: value, ..s }
    } else if index == PARAM_SEGMENT {
        Settings { segment: value, ..s }
    } else if index == PARAM_EXPAND_AFTER {
        Settings { expand_after: value, ..s }
    } else if index == PARAM_EXPAND_SEGMENT {
        Settings { expand_segment: value, ..s }
    } else if index == PARAM_COLOR_H {
        Settings { color: Hsba { hue: value, ..s.color }, ..s }
    } else if index == PARAM_COLOR_S {
        Settings { color: Hsba { saturation: value, ..s.color }, ..s }
    } else if index == PARAM_COLOR_V {
        Settings { color: Hsba { brightness: value, ..s.color }, ..s }
    } else if index == PARAM_COLOR_A {
        Settings { color: Hsba { alpha: value, ..s.color }, ..s }
    } else if index == PARAM_BG_H {
        Settings { bg_color: Hsba { hue: value, ..s.bg_color }, ..s }
    } else if index == PARAM_BG_S {
        Settings { bg_color: Hsba { saturation: value, ..s.bg_color }, ..s }
    } else if index == PARAM_BG_V {
        Settings { bg_color: Hsba { brightness: value, ..s.bg_color }, ..s }
    } else if index == PARAM_BG_A {
        Settings { bg_color: Hsba { alpha: value, ..s.bg_color }, ..s }
    } else if index == PARAM_BG_CLIP {
        Settings { bg_clip: value, ..s }
    } else {
        s
    }
}

/// What the plugin starts with: white pulses on black.
pub open spec fn initial_settings() -> Settings {
    Settings {
        speed: Single { bits: 0x3f00_0000 },
        head_width: zero(),
        trail_length: Single { bits: 0x3e99_999a },
        trail_softness: Single { bits: 0x3f00_0000 },
        color: Hsba {
            hue: zero(),
            saturation: zero(),
            brightness: Single { bits: 0x3f80_0000 },
            alpha: Single { bits: 0x3f80_0000 },
        },
        bg_color: Hsba {
            hue: zero(),
            saturation: zero(),
            brightness: zero(),
            alpha: Single { bits: 0x3f80_0000 },
        },
        bg_clip: Single { bits: 0x3f80_0000 },
        segments: Single { bits: 0x3f80_0000 },
        segment: Single { bits: 0x3f80_0000 },
        expand_after: zero(),
        expand_segment: zero(),
        auto_fire: Single { bits: 0x3f80_0000 },
        jitter: zero(),
    }
}

/// The seconds of a crossing: five at the lowest speed, 0.1 at the highest.
pub open spec fn crossing_time(s: Settings) -> Single {
    fadd(
        fmul(fsub(Single { bits: ONE }, s.speed), Single { bits: SPEED_SPAN }),
        Single { bits: FASTEST },
    )
}

/// The pause between pulses without jitter: seven tenths of a crossing.
pub open spec fn base_pause(s: Settings) -> Single {
    fmul(crossing_time(s), Single { bits: OVERLAP })
}

/// Which slots hold a pulse.
pub open spec fn taken(p: Seq<Pulse>) -> Seq<bool> {
    p.map_values(|x: Pulse| x.active)
}

/// Of the first `n` slots, the first one whose pulse started earliest.
pub open spec fn oldest(p: Seq<Pulse>, n: nat) -> int
    decreases n,
{
    if n <= 1 {
        0
    } else {
        let b: int = oldest(p, (n - 1) as nat);
        if p[n - 1].start_time < p[b].start_time {
            n - 1
        } else {
            b
        }
    }
}

/// The slot that a new pulse takes: the first idle one, else the oldest.
pub open spec fn slot(p: Seq<Pulse>) -> int {
    if first_idle(taken(p), 0) < p.len() {
        first_idle(taken(p), 0) as int
    } else {
        oldest(p, p.len())
    }
}

/// The pulse that a trigger at `at` sends.
pub open spec fn new_pulse(s: Settings, rng: u32, at: u64) -> Pulse {
    Pulse {
        active: true,
        start_time: at,
        speed_mul: variation(fraction(xorshift(rng)), s.jitter),
    }
}

/// Nanoseconds from `t` to `now`; none where `now` is earlier.
pub open spec fn since(t: u64, now: u64) -> int {
    if now >= t {
        now - t
    } else {
        0
    }
}

/// The plugin sends pulses by itself.
pub open spec fn sends_by_itself(s: Settings) -> bool {
    fle(Single { bits: HALF }, s.auto_fire)
}

/// The plugin is due to send a pulse at `now`, where it pauses for `pause` nanoseconds.
pub open spec fn is_due(b: PulseBeam, now: u64, pause: u128) -> bool {
    &&& sends_by_itself(b.settings)
    &&& match b.last_auto_fire {
        None => true,
        Some(t) => since(t, now) >= pause,
    }
}

/// How far a pulse has come, as a fraction of its way, `elapsed` seconds after its start.
pub open spec fn progress(s: Settings, p: Pulse, elapsed: Single) -> Single {
    fdiv(fmul(elapsed, p.speed_mul), crossing_time(s))
}

/// The pulse and its trail have left the picture.
pub open spec fn is_over(s: Settings, p: Pulse, elapsed: Single) -> bool {
    flt(fadd(Single { bits: ONE }, s.trail_length), progress(s, p, elapsed))
}

/// The slot of a pulse after a frame.
pub open spec fn after_frame(s: Settings, p: Pulse, elapsed: Single) -> Pulse {
    if p.active && is_over(s, p, elapsed) {
        Pulse { active: false, ..p }
    } else {
        p
    }
}

/// The progress that the shader is given for a slot.
pub open spec fn shown_progress(s: Settings, p: Pulse, elapsed: Single) -> Single {
    if p.active && !is_over(s, p, elapsed) {
        progress(s, p, elapsed)
    } else {
        Single { bits: NONE_UNDER_WAY }
    }
}

/// The colour that the shader is given.
pub open spec fn shader_color(c: Hsba) -> (Single, Single, Single, Single) {
    let (r, g, b) = rgb(c.hue, c.saturation, c.brightness);
    (r, g, b, c.alpha)
}

/// The slice of the narrow phase.
pub open spec fn narrow_slice(s: Settings) -> int {
    within(setting(s.segment), 1, slice_count(s.segments))
}

/// The part of the width that the wide phase fills: all of it, or one slice.
pub open spec fn wide_range(s: Settings) -> (Single, Single) {
    let n: int = slice_count(s.segments);
    let k: int = setting(s.expand_segment);
    if k <= 0 {
        (zero(), Single { bits: ONE })
    } else {
        let e: int = within(k, 1, n);
        (edge(e - 1, n), edge(e, n))
    }
}

/// Where the narrow phase ends, as a fraction of the height.
pub open spec fn expand_line(s: Settings, canvas_height: u32) -> Single {
    let travel = from_int(canvas_height as int);
    if flt(zero(), travel) {
        fdiv(s.expand_after, travel)
    } else {
        zero()
    }
}

/// What the shader is given of the settings.
pub open spec fn shows_settings(s: Settings, canvas_height: u32, u: BeamUniforms) -> bool {
    let n: int = slice_count(s.segments);
    &&& u.head_width == s.head_width
    &&& u.trail_length == s.trail_length
    &&& u.trail_softness == s.trail_softness
    &&& u.color == shader_color(s.color)
    &&& u.bg_color == shader_color(s.bg_color)
    &&& u.start_min == edge(narrow_slice(s) - 1, n)
    &&& u.start_max == edge(narrow_slice(s), n)
    &&& u.expand_after == expand_line(s, canvas_height)
    &&& (u.expand_min, u.expand_max) == wide_range(s)
    &&& u.bg_clip == s.bg_clip
}

/// What a frame makes of the state `before`, and what the shader is given, `elapsed` seconds
/// after the start of each pulse.
pub open spec fn drawn(
    before: PulseBeam,
    elapsed: Seq<Single>,
    canvas_height: u32,
    after: PulseBeam,
    u: BeamUniforms,
) -> bool {
    &&& forall|i: int|
        0 <= i < MAX_PULSES ==> #[trigger] after.pulses[i] == after_frame(
            before.settings,
            before.pulses[i],
            elapsed[i],
        )
    &&& forall|i: int|
        0 <= i < MAX_PULSES ==> #[trigger] u.pulse_progress[i] == shown_progress(
            before.settings,
            before.pulses[i],
            elapsed[i],
        )
    &&& shows_settings(before.settings, canvas_height, u)
    &&& after.settings == before.settings
    &&& after.rng_seed == before.rng_seed
    &&& after.last_auto_fire == before.last_auto_fire
    &&& after.next_auto_interval == before.next_auto_interval
}

/// What becomes of the state `before` where a pulse is sent at `at` if one is due.
pub open spec fn auto_fired(
    before: PulseBeam,
    now: u64,
    pause: u128,
    at: u64,
    after: PulseBeam,
) -> bool {
    &&& after.settings == before.settings
    &&& is_due(before, now, pause) ==> {
        let rng: u32 = xorshift(before.rng_seed);
        &&& after.pulses@ == before.pulses@.update(
            slot(before.pulses@),
            new_pulse(before.settings, before.rng_seed, at),
        )
        &&& after.rng_seed == xorshift(rng)
        &&& after.last_auto_fire == Some(now)
        &&& after.next_auto_interval == fmul(
            base_pause(before.settings),
            variation(fraction(xorshift(rng)), before.settings.jitter),
        )
    }
    &&& !is_due(before, now, pause) ==> {
        &&& after.pulses == before.pulses
        &&& after.rng_seed == before.rng_seed
        &&& after.last_auto_fire == (if sends_by_itself(before.settings) {
            before.last_auto_fire
        } else {
            None
        })
        &&& after.next_auto_interval == before.next_auto_interval
    }
}

/// What sending a pulse at `at` makes of the state `before`.
pub open spec fn sent(before: PulseBeam, at: u64, after: PulseBeam) -> bool {
    &&& after.pulses@ == before.pulses@.update(
        slot(before.pulses@),
        new_pulse(before.settings, before.rng_seed, at),
    )
    &&& after.rng_seed == xorshift(before.rng_seed)
    &&& after.settings == before.settings
    &&& after.last_auto_fire == before.last_auto_fire
    &&& after.next_auto_interval == before.next_auto_interval
}

/// What setting a parameter makes of the state `before`, where a trigger sends at `at`.
pub open spec fn is_set(
    before: PulseBeam,
    index: int,
    value: Single,
    at: u64,
    after: PulseBeam,
) -> bool {
    let fires = index == PARAM_TRIGGER && flt(Single { bits: HALF }, value);
    &&& fires ==> sent(before, at, after)
    &&& !fires ==> after.pulses == before.pulses && after.rng_seed == before.rng_seed
    &&& after.settings == with_param(before.settings, index, value)
    &&& after.last_auto_fire == before.last_auto_fire
    &&& after.next_auto_interval == before.next_auto_interval
}

/// The seconds that the plugin pauses between pulses of its own, where it sends any.
pub open spec fn pause_of(b: PulseBeam) -> Option<Single> {
    if sends_by_itself(b.settings) {
        Some(fmax(b.next_auto_interval, Single { bits: MIN_PAUSE }))
    } else {
        None
    }
}

fn color_of(c: Hsba) -> (v: (Single, Single, Single, Single))
    ensures
        v == shader_color(c),
{
    let (r, g, b) = hsb_to_rgb(c.hue, c.saturation, c.brightness);
    (r, g, b, c.alpha)
}

impl PulseBeam {
    /// A plugin that starts at `now`.
    pub fn new(now: u64) -> (b: PulseBeam)
        ensures
            b.pulses@ == Seq::new(
                MAX_PULSES as nat,
                |i: int|
                    Pulse { active: false, start_time: now, speed_mul: Single { bits: ONE } },
            ),
            b.settings == initial_settings(),
            b.rng_seed == SEED,
            b.last_auto_fire is None,
            b.next_auto_interval == (Single { bits: ONE }),
    {
        let none = Pulse { active: false, start_time: now, speed_mul: Single { bits: ONE } };
        let nothing = Single { bits: 0 };
        let b = PulseBeam {
            pulses: [none; 8],
            settings: Settings {
                speed: Single { bits: 0x3f00_0000 },
                head_width: nothing,
                trail_length: Single { bits: 0x3e99_999a },
                trail_softness: Single { bits: 0x3f00_0000 },
                color: Hsba {
                    hue: nothing,
                    saturation: nothing,
                    brightness: Single { bits: 0x3f80_0000 },
                    alpha: Single { bits: 0x3f80_0000 },
                },
                bg_color: Hsba {
                    hue: nothing,
                    saturation: nothing,
                    brightness: nothing,
                    alpha: Single { bits: 0x3f80_0000 },
                },
                bg_clip: Single { bits: 0x3f80_0000 },
                segments: Single { bits: 0x3f80_0000 },
                segment: Single { bits: 0x3f80_0000 },
                expand_after: nothing,
                expand_segment: nothing,
                auto_fire: Single { bits: 0x3f80_0000 },
                jitter: nothing,
            },
            rng_seed: SEED,
            last_auto_fire: None,
            next_auto_interval: Single { bits: ONE },
        };
        assert(b.pulses@ =~= Seq::new(
            MAX_PULSES as nat,
            |i: int| Pulse { active: false, start_time: now, speed_mul: Single { bits: ONE } },
        ));
        b
    }

    pub fn plugin_info() -> (info: PluginInfo)
        ensures
            info.unique_id@ == seq![0x50u8, 0x4c, 0x42, 0x34],
            info.name@ == seq![
                0x50u8, 0x75, 0x6c, 0x73, 0x65, 0x42, 0x65, 0x61, 0x6d, 0x20, 0x20, 0x20, 0x20,
                0x20, 0x20, 0x20,
            ],
            info.ty == PluginType::Source,
            info.about@ == "Triggerable light pulse source"@,
            info.description@ == "A line of light with configurable trail"@,
    {
        let info = PluginInfo {
            unique_id: [0x50, 0x4c, 0x42, 0x34],
            name: [
                0x50, 0x75, 0x6c, 0x73, 0x65, 0x42, 0x65, 0x61, 0x6d, 0x20, 0x20, 0x20, 0x20, 0x20,
                0x20, 0x20,
            ],
            ty: PluginType::Source,
            about: "Triggerable light pulse source",
            description: "A line of light with configurable trail",
        };
        assert(info.unique_id@ =~= seq![0x50u8, 0x4c, 0x42, 0x34]);
        assert(info.name@ =~= seq![
            0x50u8, 0x75, 0x6c, 0x73, 0x65, 0x42, 0x65, 0x61, 0x6d, 0x20, 0x20, 0x20, 0x20, 0x20,
            0x20, 0x20,
        ]);
        info
    }

    pub fn num_params() -> (n: usize)
        ensures
            n == NUM_PARAMS,
    {
        NUM_PARAMS
    }

    pub fn param_info(index: usize) -> (info: ParamInfo)
        requires
            index < NUM_PARAMS,
        ensures
            info@ == parameter(index as int),
    {
        if index == PARAM_TRIGGER {
            unit_param("Trigger", ParameterTypes::Event, None)
        } else if index == PARAM_AUTO_FIRE {
            unit_param("Auto Fire", ParameterTypes::Boolean, Some(Single { bits: 0x3f80_0000 }))
        } else if index == PARAM_JITTER {
            unit_param("Jitter", ParameterTypes::Standard, Some(Single { bits: 0x0000_0000 }))
        } else if index == PARAM_SPEED {
            unit_param("Speed", ParameterTypes::Standard, Some(Single { bits: 0x3f00_0000 }))
        } else if index == PARAM_HEAD_WIDTH {
            unit_param("Head Width", ParameterTypes::Standard, Some(Single { bits: 0x0000_0000 }))
        } else if index == PARAM_TRAIL_LENGTH {
            unit_param("Trail Length", ParameterTypes::Standard, Some(Single { bits: 0x3e99_999a }))
        } else if index == PARAM_TRAIL_SOFTNESS {
            unit_param("Trail Softness", ParameterTypes::Standard, Some(Single { bits: 0x3f00_0000 }))
        } else if index == PARAM_SEGMENTS {
            whole_param("Segments", 0x3f80_0000, 0x3f80_0000, 0x42c8_0000)
        } else if index == PARAM_SEGMENT {
            whole_param("Segment", 0x3f80_0000, 0x3f80_0000, 0x42c8_0000)
        } else if index == PARAM_EXPAND_AFTER {
            whole_param("Expand After", 0x0000_0000, 0x0000_0000, 0x4580_0000)
        } else if index == PARAM_EXPAND_SEGMENT {
            whole_param("Expand Segment", 0x0000_0000, 0x0000_0000, 0x42c8_0000)
        } else if index == PARAM_COLOR_H {
            unit_param("Color", ParameterTypes::Hue, Some(Single { bits: 0x0000_0000 }))
        } else if index == PARAM_COLOR_S {
            unit_param("Color S", ParameterTypes::Saturation, Some(Single { bits: 0x0000_0000 }))
        } else if index == PARAM_COLOR_V {
            unit_param("Color B", ParameterTypes::Brightness, Some(Single { bits: 0x3f80_0000 }))
        } else if index == PARAM_COLOR_A {
            unit_param("Color A", ParameterTypes::Alpha, Some(Single { bits: 0x3f80_0000 }))
        } else if index == PARAM_BG_H {
            unit_param("Background", ParameterTypes::Hue, Some(Single { bits: 0x0000_0000 }))
        } else if index == PARAM_BG_S {
            unit_param("Background S", ParameterTypes::Saturation, Some(Single { bits: 0x0000_0000 }))
        } else if index == PARAM_BG_V {
            unit_param("Background B", ParameterTypes::Brightness, Some(Single { bits: 0x0000_0000 }))
        } else if index == PARAM_BG_A {
            unit_param("Background A", ParameterTypes::Alpha, Some(Single { bits: 0x3f80_0000 }))
        } else {
            unit_param("Clip", ParameterTypes::Boolean, Some(Single { bits: 0x3f80_0000 }))
        }
    }

    pub fn get_param(&self, index: usize) -> (v: Single)
        ensures
            v == param(self.settings, index as int),
    {
        if index == PARAM_AUTO_FIRE {
            self.settings.auto_fire
        } else if index == PARAM_JITTER {
            self.settings.jitter
        } else if index == PARAM_SPEED {
            self.settings.speed
        } else if index == PARAM_HEAD_WIDTH {
            self.settings.head_width
        } else if index == PARAM_TRAIL_LENGTH {
            self.settings.trail_length
        } else if index == PARAM_TRAIL_SOFTNESS {
            self.settings.trail_softness
        } else if index == PARAM_SEGMENTS {
            self.settings.segments
        } else if index == PARAM_SEGMENT {
            self.settings.segment
        } else if index == PARAM_EXPAND_AFTER {
            self.settings.expand_after
        } else if index == PARAM_EXPAND_SEGMENT {
            self.settings.expand_segment
        } else if index == PARAM_COLOR_H {
            self.settings.color.hue
        } else if index == PARAM_COLOR_S {
            self.settings.color.saturation
        } else if index == PARAM_COLOR_V {
            self.settings.color.brightness
        } else if index == PARAM_COLOR_A {
            self.settings.color.alpha
        } else if index == PARAM_BG_H {
            self.settings.bg_color.hue
        } else if index == PARAM_BG_S {
            self.settings.bg_color.saturation
        } else if index == PARAM_BG_V {
            self.settings.bg_color.brightness
        } else if index == PARAM_BG_A {
            self.settings.bg_color.alpha
        } else if index == PARAM_BG_CLIP {
            self.settings.bg_clip
        } else {
            Single { bits: 0 }
        }
    }

    /// Sets a parameter. A value above one half of the trigger sends a pulse at `at`.
    pub fn set_param(&mut self, index: usize, value: Single, at: u64)
        ensures
            index == PARAM_TRIGGER && flt(Single { bits: HALF }, value) ==> {
                &&& final(self).pulses@ == old(self).pulses@.update(
                    slot(old(self).pulses@),
                    new_pulse(old(self).settings, old(self).rng_seed, at),
                )
                &&& final(self).rng_seed == xorshift(old(self).rng_seed)
            },
            !(index == PARAM_TRIGGER && flt(Single { bits: HALF }, value)) ==> {
                &&& final(self).pulses == old(self).pulses
                &&& final(self).rng_seed == old(self).rng_seed
            },
            final(self).settings == with_param(old(self).settings, index as int, value),
            final(self).last_auto_fire == old(self).last_auto_fire,
            final(self).next_auto_interval == old(self).next_auto_interval,
            is_set(*old(self), index as int, value, at, *final(self)),
    {
        if index == PARAM_TRIGGER {
            if (Single { bits: HALF }).less(value) {
                self.fire_pulse(at);
            }
        } else if index == PARAM_AUTO_FIRE {
            self.settings.auto_fire = value;
        } else if index == PARAM_JITTER {
            self.settings.jitter = value;
        } else if index == PARAM_SPEED {
            self.settings.speed = value;
        } else if index == PARAM_HEAD_WIDTH {
            self.settings.head_width = value;
        } else if index == PARAM_TRAIL_LENGTH {
            self.settings.trail_length = value;
        } else if index == PARAM_TRAIL_SOFTNESS {
            self.settings.trail_softness = value;
        } else if index == PARAM_SEGMENTS {
            self.settings.segments = value;
        } else if index == PARAM_SEGMENT {
            self.settings.segment = value;
        } else if index == PARAM_EXPAND_AFTER {
            self.settings.expand_after = value;
        } else if index == PARAM_EXPAND_SEGMENT {
            self.settings.expand_segment = value;
        } else if index == PARAM_COLOR_H {
            self.settings.color.hue = value;
        } else if index == PARAM_COLOR_S {
            self.settings.color.saturation = value;
        } else if index == PARAM_COLOR_V {
            self.settings.color.brightness = value;
        } else if index == PARAM_COLOR_A {
            self.settings.color.alpha = value;
        } else if index == PARAM_BG_H {
            self.settings.bg_color.hue = value;
        } else if index == PARAM_BG_S {
            self.settings.bg_color.saturation = value;
        } else if index == PARAM_BG_V {
            self.settings.bg_color.brightness = value;
        } else if index == PARAM_BG_A {
            self.settings.bg_color.alpha = value;
        } else if index == PARAM_BG_CLIP {
            self.settings.bg_clip = value;
        }
    }

    /// Moves the generator on and gives its fraction.
    fn next_rand(&mut self) -> (r: Single)
        ensures
            r == fraction(xorshift(old(self).rng_seed)),
            final(self).rng_seed == xorshift(old(self).rng_seed),
            final(self).pulses == old(self).pulses,
            final(self).settings == old(self).settings,
            final(self).last_auto_fire == old(self).last_auto_fire,
            final(self).next_auto_interval == old(self).next_auto_interval,
    {
        self.rng_seed = next_state(self.rng_seed);
        fraction_of(self.rng_seed)
    }

    /// Sends a pulse at `at`, in the first idle slot, else in that of the oldest pulse.
    pub fn fire_pulse(&mut self, at: u64)
        ensures
            final(self).pulses@ == old(self).pulses@.update(
                slot(old(self).pulses@),
                new_pulse(old(self).settings, old(self).rng_seed, at),
            ),
            final(self).rng_seed == xorshift(old(self).rng_seed),
            final(self).settings == old(self).settings,
            final(self).last_auto_fire == old(self).last_auto_fire,
            final(self).next_auto_interval == old(self).next_auto_interval,
            sent(*old(self), at, *final(self)),
    {
        let mut k: usize = 0;
        while k < 8 && self.pulses[k].active
            invariant
                k <= 8,
                *self == *old(self),
                first_idle(taken(self.pulses@), 0) == first_idle(taken(self.pulses@), k as nat),
            decreases 8 - k,
        {
            k = k + 1;
        }
        if k == 8 {
            k = 0;
            let mut n: usize = 1;
            while n < 8
                invariant
                    1 <= n <= 8,
                    *self == *old(self),
                    k < n,
                    k == oldest(self.pulses@, n as nat),
                decreases 8 - n,
            {
                if self.pulses[n].start_time < self.pulses[k].start_time {
                    k = n;
                }
                n = n + 1;
            }
        }
        let r = self.next_rand();
        let speed_mul = variation_of(r, self.settings.jitter);
        self.pulses[k] = Pulse { active: true, start_time: at, speed_mul };
    }

    fn crossing_seconds(&self) -> (d: Single)
        ensures
            d == crossing_time(self.settings),
    {
        Single { bits: ONE }.minus(self.settings.speed).times(Single { bits: SPEED_SPAN }).plus(
            Single { bits: FASTEST },
        )
    }

    /// The seconds that the plugin pauses between pulses of its own, where it sends any.
    pub fn pause(&self) -> (p: Option<Single>)
        ensures
            p == (if sends_by_itself(self.settings) {
                Some(fmax(self.next_auto_interval, Single { bits: MIN_PAUSE }))
            } else {
                None
            }),
            p == pause_of(*self),
    {
        if (Single { bits: HALF }).at_most(self.settings.auto_fire) {
            Some(self.next_auto_interval.larger(Single { bits: MIN_PAUSE }))
        } else {
            None
        }
    }

    /// Sends a pulse at `at` where one is due at `now`, with `pause` the pause in
    /// nanoseconds.
    pub fn auto_fire(&mut self, now: u64, pause: u128, at: u64)
        ensures
            is_due(*old(self), now, pause) ==> {
                let rng: u32 = xorshift(old(self).rng_seed);
                &&& final(self).pulses@ == old(self).pulses@.update(
                    slot(old(self).pulses@),
                    new_pulse(old(self).settings, old(self).rng_seed, at),
                )
                &&& final(self).rng_seed == xorshift(rng)
                &&& final(self).last_auto_fire == Some(now)
                &&& final(self).next_auto_interval == fmul(
                    base_pause(old(self).settings),
                    variation(fraction(xorshift(rng)), old(self).settings.jitter),
                )
            },
            !is_due(*old(self), now, pause) ==> {
                &&& final(self).pulses == old(self).pulses
                &&& final(self).rng_seed == old(self).rng_seed
                &&& final(self).last_auto_fire == (if sends_by_itself(old(self).settings) {
                    old(self).last_auto_fire
                } else {
                    None
                })
                &&& final(self).next_auto_interval == old(self).next_auto_interval
            },
            final(self).settings == old(self).settings,
            auto_fired(*old(self), now, pause, at, *final(self)),
    {
        if (Single { bits: HALF }).at_most(self.settings.auto_fire) {
            let due = match self.last_auto_fire {
                None => true,
                Some(t) => if now >= t {
                    (now - t) as u128 >= pause
                } else {
                    pause == 0
                },
            };
            if due {
                self.fire_pulse(at);
                self.last_auto_fire = Some(now);
                let base = self.crossing_seconds().times(Single { bits: OVERLAP });
                let r = self.next_rand();
                self.next_auto_interval = base.times(variation_of(r, self.settings.jitter));
            }
        } else {
            self.last_auto_fire = None;
        }
    }

    /// Nanoseconds since the pulse in slot `i` started.
    pub fn age(&self, i: usize, now: u64) -> (a: u64)
        requires
            i < MAX_PULSES,
        ensures
            a == since(self.pulses[i as int].start_time, now),
    {
        let t: u64 = self.pulses[i].start_time;
        if now >= t {
            now - t
        } else {
            0
        }
    }

    /// One frame, `elapsed` seconds after the start of each pulse, on a canvas of the given
    /// height: lets pulses that have left the picture end and gives the values for the
    /// shader.
    pub fn draw(&mut self, elapsed: &[Single; 8], canvas_height: u32) -> (u: BeamUniforms)
        ensures
            forall|i: int|
                0 <= i < MAX_PULSES ==> #[trigger] final(self).pulses[i] == after_frame(
                    old(self).settings,
                    old(self).pulses[i],
                    elapsed[i],
                ),
            forall|i: int|
                0 <= i < MAX_PULSES ==> #[trigger] u.pulse_progress[i] == shown_progress(
                    old(self).settings,
                    old(self).pulses[i],
                    elapsed[i],
                ),
            shows_settings(old(self).settings, canvas_height, u),
            final(self).settings == old(self).settings,
            final(self).rng_seed == old(self).rng_seed,
            final(self).last_auto_fire == old(self).last_auto_fire,
            final(self).next_auto_interval == old(self).next_auto_interval,
            drawn(*old(self), elapsed@, canvas_height, *final(self), u),
    {
        let seconds = self.crossing_seconds();
        let limit = Single { bits: ONE }.plus(self.settings.trail_length);
        let mut shown = [Single { bits: NONE_UNDER_WAY }; 8];
        let mut i: usize = 0;
        while i < 8
            invariant
                i <= 8,
                seconds == crossing_time(old(self).settings),
                limit == fadd(Single { bits: ONE }, old(self).settings.trail_length),
                forall|j: int|
                    0 <= j < i ==> #[trigger] self.pulses[j] == after_frame(
                        old(self).settings,
                        old(self).pulses[j],
                        elapsed[j],
                    ),
                forall|j: int|
                    i <= j < MAX_PULSES ==> #[trigger] self.pulses[j] == old(self).pulses[j],
                forall|j: int|
                    0 <= j < i ==> #[trigger] shown[j] == shown_progress(
                        old(self).settings,
                        old(self).pulses[j],
                        elapsed[j],
                    ),
                forall|j: int|
                    i <= j < MAX_PULSES ==> #[trigger] shown[j] == (Single {
                        bits: NONE_UNDER_WAY,
                    }),
                self.settings == old(self).settings,
                self.rng_seed == old(self).rng_seed,
                self.last_auto_fire == old(self).last_auto_fire,
                self.next_auto_interval == old(self).next_auto_interval,
            decreases 8 - i,
        {
            let p = self.pulses[i];
            if p.active {
                let way = elapsed[i].times(p.speed_mul).over(seconds);
                if limit.less(way) {
                    self.pulses[i] = Pulse { active: false, ..p };
                } else {
                    shown[i] = way;
                }
            }
            i = i + 1;
        }
        let s = self.settings;
        let n: i32 = count_slices(s.segments);
        let narrow: i32 = pick_slice(s.segment.to_i32(), n);
        let wide: i32 = s.expand_segment.to_i32();
        let (expand_min, expand_max) = if wide <= 0 {
            (Single { bits: 0 }, Single { bits: ONE })
        } else {
            let e: i32 = pick_slice(wide, n);
            (edge_of(e - 1, n), edge_of(e, n))
        };
        let travel = Single::from_u64(canvas_height as u64);
        let expand_after = if (Single { bits: 0 }).less(travel) {
            s.expand_after.over(travel)
        } else {
            Single { bits: 0 }
        };
        BeamUniforms {
            pulse_progress: shown,
            head_width: s.head_width,
            trail_length: s.trail_length,
            trail_softness: s.trail_softness,
            color: color_of(s.color),
            bg_color: color_of(s.bg_color),
            start_min: edge_of(narrow - 1, n),
            start_max: edge_of(narrow, n),
            expand_after,
            expand_min,
            expand_max,
            bg_clip: s.bg_clip,
        }
    }
}

} // verus!
