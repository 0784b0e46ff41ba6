use ffgl_plugins::host::{ParameterTypes, PluginType};
use ffgl_plugins::segmenter::{InputTexture, Segmenter, NUM_PARAMS};
use ffgl_plugins::single::Single;

fn s(x: f32) -> Single {
    Single { bits: x.to_bits() }
}

fn f(x: Single) -> f32 {
    f32::from_bits(x.bits)
}

const PICTURE: InputTexture =
    InputTexture { width: 1920, height: 1080, hardware_width: 2048, hardware_height: 2048 };

fn shown(segments: f32, segment: f32, end: f32) -> (f32, f32) {
    let mut x = Segmenter::new();
    x.set_param(0, s(segments));
    x.set_param(1, s(segment));
    x.set_param(2, s(end));
    let u = x.draw(Some(PICTURE)).unwrap();
    (f(u.seg_lo), f(u.seg_hi))
}

#[test]
fn segmenter_identity() {
    let info = Segmenter::plugin_info();
    assert_eq!(&info.unique_id, b"SGMT");
    assert_eq!(&info.name, b"Segmenter       ");
    assert_eq!(info.ty, PluginType::Effect);
    assert_eq!(info.about, "Slice input into N segments, output one");
    assert_eq!(
        info.description,
        "Splits the perpendicular axis into N equal segments and renders only the chosen one — the rest is transparent. Stack multiple instances to assemble per-segment content from different sources."
    );
}

#[test]
fn segmenter_parameters_are_announced() {
    assert_eq!(Segmenter::num_params(), 4);
    let names: Vec<&str> = (0..NUM_PARAMS).map(|i| Segmenter::param_info(i).name).collect();
    assert_eq!(names, vec!["Segments", "Segment", "Segment End", "Direction"]);
    let d = Segmenter::param_info(3);
    assert_eq!(d.param_type, ParameterTypes::Choice);
    let e = d.elements.unwrap();
    assert_eq!(e[0].0, "Vertical");
    assert_eq!(f(e[0].1), 0.0);
    assert_eq!(e[1].0, "Horizontal");
    assert_eq!(f(e[1].1), 1.0);
    assert_eq!(Segmenter::param_info(0).max.map(f), Some(100.0));
    assert_eq!(Segmenter::param_info(2).min.map(f), Some(0.0));
}

#[test]
fn segmenter_starts_with_its_defaults() {
    let x = Segmenter::new();
    for i in 0..NUM_PARAMS {
        assert_eq!(Some(f(x.get_param(i))), Segmenter::param_info(i).default.map(f));
    }
    assert_eq!(f(x.get_param(4)), 0.0);
}

#[test]
fn segmenter_parameters_read_as_they_were_set() {
    for i in 0..NUM_PARAMS + 2 {
        let mut x = Segmenter::new();
        let before: Vec<u32> = (0..NUM_PARAMS + 2).map(|j| x.get_param(j).bits).collect();
        x.set_param(i, s(0.4375));
        for j in 0..NUM_PARAMS + 2 {
            let want = if i == j && i < NUM_PARAMS { 0.4375f32.to_bits() } else { before[j] };
            assert_eq!(x.get_param(j).bits, want);
        }
    }
}

#[test]
fn one_slice_is_shown() {
    assert_eq!(shown(4.0, 1.0, 0.0), (0.0, 0.25));
    assert_eq!(shown(4.0, 4.0, 0.0), (0.75, 1.0));
    assert_eq!(shown(4.0, 9.0, 0.0), (0.75, 1.0));
    assert_eq!(shown(4.0, -2.0, 0.0), (0.0, 0.25));
    assert_eq!(shown(0.0, 5.0, 0.0), (0.0, 1.0));
    assert_eq!(shown(3.0, 2.0, 0.0), (1.0 / 3.0, 2.0 / 3.0));
}

#[test]
fn range_of_slices_is_shown() {
    assert_eq!(shown(4.0, 2.0, 3.0), (0.25, 0.75));
    assert_eq!(shown(4.0, 2.0, 2.0), (0.25, 0.5));
    assert_eq!(shown(4.0, 2.0, 50.0), (0.25, 1.0));
    assert_eq!(shown(4.0, 3.0, 1.0), (0.5, 0.75));
    assert_eq!(shown(4.0, 3.0, -1.0), (0.5, 0.75));
}

#[test]
fn neighbouring_slices_share_an_edge() {
    for n in [2, 3, 7, 100] {
        for k in 1..n {
            let a = shown(n as f32, k as f32, 0.0);
            let b = shown(n as f32, k as f32 + 1.0, 0.0);
            assert_eq!(a.1, b.0);
            assert!(a.0 < a.1);
        }
    }
}

#[test]
fn no_picture_shows_nothing() {
    assert!(Segmenter::new().draw(None).is_none());
}

#[test]
fn picture_takes_a_part_of_its_texture() {
    let mut x = Segmenter::new();
    x.set_param(3, s(1.0));
    let u = x.draw(Some(PICTURE)).unwrap();
    assert_eq!((f(u.uv_scale.0), f(u.uv_scale.1)), (1920.0 / 2048.0, 1080.0 / 2048.0));
    assert_eq!(f(u.direction), 1.0);
    let odd = InputTexture { width: 10, height: 10, hardware_width: 0, hardware_height: 30 };
    let u = x.draw(Some(odd)).unwrap();
    assert_eq!((f(u.uv_scale.0), f(u.uv_scale.1)), (1.0, 10.0 / 30.0));
}
