//! Shows one slice, or a range of slices, of a picture and hides the rest.
use crate::host::{
    whole_param, whole_range, ParamInfo, Parameter, ParameterTypes, PluginInfo, PluginType,
};
use crate::single::{fdiv, fle, flt, from_int, zero, Single};
use crate::single_facts::{lemma_from_int, lemma_whole_size};
use crate::single_order::{
    in_unit, lemma_div_order, lemma_div_self, lemma_from_int_order, lemma_one, one,
};
use crate::slices::{
    count_slices, edge, edge_of, in_slice, lemma_edge_is_fraction, lemma_edges_in_order,
    lemma_find_slice, lemma_setting_reads, lemma_slice_count, pick_slice, reads_as, setting,
    slice_count, within,
};
use crate::values::{lemma_ratio, lemma_value_whole, near, value};
use vstd::prelude::*;

verus! {

pub const PARAM_SEGMENTS: usize = 0;

pub const PARAM_SEGMENT: usize = 1;

pub const PARAM_SEGMENT_END: usize = 2;

pub const PARAM_DIRECTION: usize = 3;

/// How many parameters there are.
pub const NUM_PARAMS: usize = 4;

/// The number one, also the direction of horizontal slices.
pub const ONE: u32 = 0x3f80_0000;

/// The state of the plugin: its parameters.
#[derive(Clone, Copy, Debug)]
pub struct Segmenter {
    pub segments: Single,
    pub segment: Single,
    pub segment_end: Single,
    pub direction: Single,
}

/// A picture within the texture that holds it.
#[derive(Clone, Copy, Debug)]
pub struct InputTexture {
    pub width: u32,
    pub height: u32,
    pub hardware_width: u32,
    pub hardware_height: u32,
}

/// What the shader is given.
#[derive(Clone, Copy, Debug)]
pub struct SegmentUniforms {
    pub uv_scale: (Single, Single),
    pub seg_lo: Single,
    pub seg_hi: Single,
    pub direction: Single,
}

/// What each parameter is.
pub open spec fn parameter(index: int) -> Parameter {
    if index == PARAM_SEGMENTS {
        whole_range("Segments"@, 0x4080_0000, 0x3f80_0000, 0x42c8_0000)
    } else if index == PARAM_SEGMENT {
        whole_range("Segment"@, 0x3f80_0000, 0x3f80_0000, 0x42c8_0000)
    } else if index == PARAM_SEGMENT_END {
        whole_range("Segment End"@, 0, 0, 0x42c8_0000)
    } else {
        Parameter {
            name: "Direction"@,
            param_type: ParameterTypes::Choice,
            default: Some(zero()),
            min: Some(zero()),
            max: Some(Single { bits: ONE }),
            elements: Some(
                seq![("Vertical"@, zero()), ("Horizontal"@, Single { bits: ONE })],
            ),
        }
    }
}

/// The value of a parameter; zero for what is no parameter.
pub open spec fn param(s: Segmenter, index: int) -> Single {
    if index == PARAM_SEGMENTS {
        s.segments
    } else if index == PARAM_SEGMENT {
        s.segment
    } else if index == PARAM_SEGMENT_END {
        s.segment_end
    } else if index == PARAM_DIRECTION {
        s.direction
    } else {
        zero()
    }
}

/// The state with one parameter changed; what is no parameter changes nothing.
pub open spec fn with_param(s: Segmenter, index: int, value: Single) -> Segmenter {
    if index == PARAM_SEGMENTS {
        Segmenter { segments: value, ..s }
    } else if index == PARAM_SEGMENT {
        Segmenter { segment: value, ..s }
    } else if index == PARAM_SEGMENT_END {
        Segmenter { segment_end: value, ..s }
    } else if index == PARAM_DIRECTION {
        Segmenter { direction: value, ..s }
    } else {
        s
    }
}

/// What the plugin starts with: four slices, the first one shown.
pub open spec fn initial_settings() -> Segmenter {
    Segmenter {
        segments: Single { bits: 0x4080_0000 },
        segment: Single { bits: ONE },
        segment_end: zero(),
        direction: zero(),
    }
}

/// The first slice that is shown.
pub open spec fn first_slice(s: Segmenter) -> int {
    within(setting(s.segment), 1, slice_count(s.segments))
}

/// The last slice that is shown: the first one again where the end is not set or before
/// it.
pub open spec fn last_slice(s: Segmenter) -> int {
    let end: int = setting(s.segment_end);
    if end <= 0 || end < first_slice(s) {
        first_slice(s)
    } else if end > slice_count(s.segments) {
        slice_count(s.segments)
    } else {
        end
    }
}

/// The part of a texture's side that the picture takes.
pub open spec fn part_of_side(side: u32, hardware: u32) -> Single {
    if hardware > 0 {
        fdiv(from_int(side as int), from_int(hardware as int))
    } else {
        Single { bits: ONE }
    }
}

/// What the shader is given of the settings and of a picture.
pub open spec fn shows(s: Segmenter, t: InputTexture, u: SegmentUniforms) -> bool {
    let n: int = slice_count(s.segments);
    &&& u.uv_scale == (
        part_of_side(t.width, t.hardware_width),
        part_of_side(t.height, t.hardware_height),
    )
    &&& u.seg_lo == edge(first_slice(s) - 1, n)
    &&& u.seg_hi == edge(last_slice(s), n)
    &&& u.direction == s.direction
}

fn part_of(side: u32, hardware: u32) -> (r: Single)
    ensures
        r == part_of_side(side, hardware),
{
    if hardware > 0 {
        Single::from_u64(side as u64).over(Single::from_u64(hardware as u64))
    } else {
        Single { bits: ONE }
    }
}

impl Segmenter {
    pub fn new() -> (s: Segmenter)
        ensures
            s == initial_settings(),
    {
        Segmenter {
            segments: Single { bits: 0x4080_0000 },
            segment: Single { bits: ONE },
            segment_end: Single { bits: 0 },
            direction: Single { bits: 0 },
        }
    }

    pub fn plugin_info() -> (info: PluginInfo)
        ensures
            info.unique_id@ == seq![0x53u8, 0x47, 0x4d, 0x54],
            info.name@ == seq![
                0x53u8, 0x65, 0x67, 0x6d, 0x65, 0x6e, 0x74, 0x65, 0x72, 0x20, 0x20, 0x20, 0x20,
                0x20, 0x20, 0x20,
            ],
            info.ty == PluginType::Effect,
            info.about@ == "Slice input into N segments, output one"@,
            info.description@
                == "Splits the perpendicular axis into N equal segments and renders only the chosen one \u{2014} the rest is transparent. Stack multiple instances to assemble per-segment content from different sources."@,
    {
        let info = PluginInfo {
            unique_id: [0x53, 0x47, 0x4d, 0x54],
            name: [
                0x53, 0x65, 0x67, 0x6d, 0x65, 0x6e, 0x74, 0x65, 0x72, 0x20, 0x20, 0x20, 0x20, 0x20,
                0x20, 0x20,
            ],
            ty: PluginType::Effect,
            about: "Slice input into N segments, output one",
            description:
                "Splits the perpendicular axis into N equal segments and renders only the chosen one \u{2014} the rest is transparent. Stack multiple instances to assemble per-segment content from different sources.",
        };
        assert(info.unique_id@ =~= seq![0x53u8, 0x47, 0x4d, 0x54]);
        assert(info.name@ =~= seq![
            0x53u8, 0x65, 0x67, 0x6d, 0x65, 0x6e, 0x74, 0x65, 0x72, 0x20, 0x20, 0x20, 0x20, 0x20,
            0x20, 0x20,
        ]);
        info
    }

    pub fn num_params() -> (n: usize)
        ensures
            n == NUM_PARAMS,
    {
        NUM_PARAMS
    }

    pub fn param_info(index: usize) -> (info: ParamInfo)
        requires
            index < NUM_PARAMS,
        ensures
            info@ == parameter(index as int),
    {
        if index == PARAM_SEGMENTS {
            whole_param("Segments", 0x4080_0000, 0x3f80_0000, 0x42c8_0000)
        } else if index == PARAM_SEGMENT {
            whole_param("Segment", 0x3f80_0000, 0x3f80_0000, 0x42c8_0000)
        } else if index == PARAM_SEGMENT_END {
            whole_param("Segment End", 0, 0, 0x42c8_0000)
        } else {
            ParamInfo {
                name: "Direction",
                param_type: ParameterTypes::Choice,
                default: Some(Single { bits: 0 }),
                min: Some(Single { bits: 0 }),
                max: Some(Single { bits: ONE }),
                elements: Some(
                    [("Vertical", Single { bits: 0 }), ("Horizontal", Single { bits: ONE })],
                ),
            }
        }
    }

    pub fn get_param(&self, index: usize) -> (v: Single)
        ensures
            v == param(*self, index as int),
    {
        if index == PARAM_SEGMENTS {
            self.segments
        } else if index == PARAM_SEGMENT {
            self.segment
        } else if index == PARAM_SEGMENT_END {
            self.segment_end
        } else if index == PARAM_DIRECTION {
            self.direction
        } else {
            Single { bits: 0 }
        }
    }

    pub fn set_param(&mut self, index: usize, value: Single)
        ensures
            *final(self) == with_param(*old(self), index as int, value),
    {
        if index == PARAM_SEGMENTS {
            self.segments = value;
        } else if index == PARAM_SEGMENT {
            self.segment = value;
        } else if index == PARAM_SEGMENT_END {
            self.segment_end = value;
        } else if index == PARAM_DIRECTION {
            self.direction = value;
        }
    }

    /// The values for the shader; none where there is no picture to show.
    pub fn draw(&self, input: Option<InputTexture>) -> (u: Option<SegmentUniforms>)
        ensures
            u is Some <==> input is Some,
            input matches Some(t) ==> {
                let n: int = slice_count(self.segments);
                &&& u->0.uv_scale == (
                    part_of_side(t.width, t.hardware_width),
                    part_of_side(t.height, t.hardware_height),
                )
                &&& u->0.seg_lo == edge(first_slice(*self) - 1, n)
                &&& u->0.seg_hi == edge(last_slice(*self), n)
                &&& u->0.direction == self.direction
            },
            input matches Some(t) ==> shows(*self, t, u->0),
    {
        match input {
            None => None,
            Some(t) => {
                let n: i32 = count_slices(self.segments);
                let first: i32 = pick_slice(self.segment.to_i32(), n);
                let end: i32 = self.segment_end.to_i32();
                let last: i32 = if end <= 0 || end < first {
                    first
                } else if end > n {
                    n
                } else {
                    end
                };
                Some(
                    SegmentUniforms {
                        uv_scale: (
                            part_of(t.width, t.hardware_width),
                            part_of(t.height, t.hardware_height),
                        ),
                        seg_lo: edge_of(first - 1, n),
                        seg_hi: edge_of(last, n),
                        direction: self.direction,
                    },
                )
            },
        }
    }
}

/// A parameter reads as it was set, and setting it leaves the others alone.
pub proof fn lemma_set_get(s: Segmenter, i: int, value: Single, j: int)
    ensures
        param(with_param(s, i, value), j) == (if i == j && 0 <= i < NUM_PARAMS {
            value
        } else {
            param(s, j)
        }),
{
}

/// The plugin starts with the defaults that it announces.
pub proof fn lemma_starts_with_defaults(i: int)
    requires
        0 <= i < NUM_PARAMS,
    ensures
        parameter(i).default == Some(param(initial_settings(), i)),
{
}

/// The part that is shown is in order and within the picture, and it holds exactly the
/// chosen slices.
pub proof fn lemma_shows_chosen_slices(s: Segmenter, x: Single)
    requires
        fle(zero(), x),
        flt(x, one()),
    ensures
        ({
            let n: int = slice_count(s.segments);
            let lo = edge(first_slice(s) - 1, n);
            let hi = edge(last_slice(s), n);
            &&& 1 <= first_slice(s) <= last_slice(s) <= n
            &&& fle(lo, hi)
            &&& in_unit(lo)
            &&& in_unit(hi)
            &&& (fle(lo, x) && flt(x, hi)) <==> exists|k: int|
                first_slice(s) <= k <= last_slice(s) && #[trigger] in_slice(x, k, n)
        }),
{
    let n: int = slice_count(s.segments);
    let a: int = first_slice(s);
    let b: int = last_slice(s);
    lemma_slice_count(s.segments);
    lemma_edges_in_order(a - 1, b, n);
    if fle(edge(a - 1, n), x) && flt(x, edge(b, n)) {
        let k: int = lemma_find_slice(x, b, n);
        if k < a {
            lemma_edges_in_order(k, a - 1, n);
        }
        assert(in_slice(x, k, n));
    }
    if exists|k: int| a <= k <= b && #[trigger] in_slice(x, k, n) {
        let k: int = choose|k: int| a <= k <= b && #[trigger] in_slice(x, k, n);
        lemma_edges_in_order(a - 1, k - 1, n);
        lemma_edges_in_order(k, b, n);
    }
}

/// Of `n` slices, those from the one that Segment is set to up to the one that Segment End
/// is set to are shown, and nothing else: the part that is shown starts at `(a - 1) / n` and
/// ends at `b / n`. Without an end, or with one before the first slice, one slice is shown;
/// an end behind the last slice is the last slice, and so is a first one. Fractions of the
/// settings do not count.
pub proof fn lemma_shows_what_is_set(
    s: Segmenter,
    t: InputTexture,
    u: SegmentUniforms,
    n: int,
    a: int,
    b: int,
    x: Single,
)
    requires
        shows(s, t, u),
        reads_as(s.segments, n),
        reads_as(s.segment, a),
        reads_as(s.segment_end, b),
        1 <= n <= 0x100_0000,
        i32::MIN <= a <= i32::MAX,
        i32::MIN <= b <= i32::MAX,
        x.is_finite(),
        fle(zero(), x),
    ensures
        ({
            let first: int = if a < 1 {
                1
            } else if a > n {
                n
            } else {
                a
            };
            let last: int = if b < first {
                first
            } else if b > n {
                n
            } else {
                b
            };
            let lo: real = (first - 1) as real / n as real;
            let hi: real = last as real / n as real;
            &&& u.seg_lo == fdiv(from_int(first - 1), from_int(n))
            &&& u.seg_hi == fdiv(from_int(last), from_int(n))
            &&& near(value(u.seg_lo), lo, 1real / 8388608real)
            &&& near(value(u.seg_hi), hi, 1real / 8388608real)
            &&& value(x) * n as real >= (first - 1) as real ==> fle(u.seg_lo, x)
            &&& value(x) * n as real <= (first - 1) as real ==> fle(x, u.seg_lo)
            &&& value(x) * n as real >= last as real ==> fle(u.seg_hi, x)
            &&& value(x) * n as real <= last as real ==> fle(x, u.seg_hi)
            &&& flt(x, one()) ==> ((fle(u.seg_lo, x) && flt(x, u.seg_hi)) <==> exists|k: int|
                first <= k <= last && fle(#[trigger] fdiv(from_int(k - 1), from_int(n)), x) && flt(
                    x,
                    fdiv(from_int(k), from_int(n)),
                ))
            &&& u.direction == s.direction
        }),
{
    lemma_setting_reads(s.segments, n);
    lemma_setting_reads(s.segment, a);
    lemma_setting_reads(s.segment_end, b);
    let first: int = first_slice(s);
    let last: int = last_slice(s);
    lemma_edge_is_fraction(first - 1, n, x);
    lemma_edge_is_fraction(last, n, x);
    if flt(x, one()) {
        lemma_shows_chosen_slices(s, x);
        if fle(u.seg_lo, x) && flt(x, u.seg_hi) {
            let k: int = choose|k: int| first <= k <= last && #[trigger] in_slice(x, k, n);
            assert(fle(fdiv(from_int(k - 1), from_int(n)), x));
        }
        if exists|k: int|
            first <= k <= last && fle(#[trigger] fdiv(from_int(k - 1), from_int(n)), x) && flt(
                x,
                fdiv(from_int(k), from_int(n)),
            ) {
            let k: int = choose|k: int|
                first <= k <= last && fle(#[trigger] fdiv(from_int(k - 1), from_int(n)), x) && flt(
                    x,
                    fdiv(from_int(k), from_int(n)),
                );
            assert(in_slice(x, k, n));
        }
    }
}

/// The picture takes the part of its texture that its sides are of the texture's: `width`
/// of `hardware_width`, and `height` of `hardware_height`; all of it where the texture has
/// no size.
pub proof fn lemma_shows_the_picture(s: Segmenter, t: InputTexture, u: SegmentUniforms)
    requires
        shows(s, t, u),
        t.width <= t.hardware_width,
        t.height <= t.hardware_height,
    ensures
        t.hardware_width > 0 ==> near(
            value(u.uv_scale.0),
            t.width as real / t.hardware_width as real,
            1real / 2097152real,
        ),
        t.hardware_height > 0 ==> near(
            value(u.uv_scale.1),
            t.height as real / t.hardware_height as real,
            1real / 2097152real,
        ),
        t.hardware_width == 0 ==> value(u.uv_scale.0) == 1real,
        t.hardware_height == 0 ==> value(u.uv_scale.1) == 1real,
{
    lemma_one();
    lemma_value_whole(one(), 1);
    if t.hardware_width > 0 {
        lemma_ratio(t.width as int, t.hardware_width as int);
    }
    if t.hardware_height > 0 {
        lemma_ratio(t.height as int, t.hardware_height as int);
    }
}

/// A picture no larger than its texture takes a part of it.
pub proof fn lemma_part_of_side(side: u32, hardware: u32)
    requires
        side <= hardware,
    ensures
        in_unit(part_of_side(side, hardware)),
{
    if hardware > 0 {
        lemma_from_int_order(0, side as int);
        lemma_from_int_order(side as int, hardware as int);
        lemma_from_int_order(1, hardware as int);
        lemma_from_int(0);
        lemma_from_int(1);
        lemma_whole_size(from_int(0), 0);
        lemma_whole_size(from_int(1), 1);
        lemma_div_order(
            from_int(side as int),
            from_int(hardware as int),
            from_int(hardware as int),
        );
        lemma_div_self(from_int(hardware as int));
    }
}

/// Each parameter, in the order and under the name that it is announced with, is the setting
/// of that name.
pub proof fn lemma_parameters_are_settings(s: Segmenter)
    ensures
        parameter(0).name == "Segments"@ && param(s, 0) == s.segments,
        parameter(1).name == "Segment"@ && param(s, 1) == s.segment,
        parameter(2).name == "Segment End"@ && param(s, 2) == s.segment_end,
        parameter(3).name == "Direction"@ && param(s, 3) == s.direction,
{
}

} // verus!
