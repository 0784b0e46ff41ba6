use ffgl_plugins::isf::{
    destination_size, prepare_image, prepare_pixels, render_size, IsfFFGLInstance, IsfFFGLParam,
    RgbaPixels, TextureSource,
};
use ffgl_plugins::mask::preprocess_mask_with_distance;
use ffgl_plugins::single::Single;
use image::{DynamicImage, GrayImage, Luma, LumaA, Rgb, RgbImage, Rgba, RgbaImage};

fn s(x: f32) -> Single {
    Single { bits: x.to_bits() }
}

fn file(name: &str, path: &str, needs_reload: bool) -> IsfFFGLParam {
    IsfFFGLParam::FileImage { name: name.to_string(), path: path.to_string(), needs_reload }
}

fn picture(name: &str) -> IsfFFGLParam {
    IsfFFGLParam::Image { name: name.to_string() }
}

fn waiting(x: &IsfFFGLInstance, i: usize) -> bool {
    match &x.inputs[i] {
        IsfFFGLParam::FileImage { needs_reload, .. } => *needs_reload,
        _ => false,
    }
}

#[test]
fn grey_pictures_become_masks() {
    let mut g = GrayImage::new(3, 2);
    g.put_pixel(1, 0, Luma([200]));
    g.put_pixel(2, 0, Luma([255]));
    g.put_pixel(2, 1, Luma([90]));
    let m = prepare_image(&DynamicImage::ImageLuma8(g)).unwrap();
    assert_eq!((m.width, m.height), (3, 2));
    let rgba = [
        0, 0, 0, 255, 200, 200, 200, 255, 255, 255, 255, 255, 0, 0, 0, 255, 0, 0, 0, 255, 90, 90,
        90, 255,
    ];
    assert_eq!(m.data, preprocess_mask_with_distance(&rgba, 3, 2));
    assert_eq!(m.data[4], 200);
    assert_eq!(m.data[8], 255);
}

#[test]
fn coloured_pictures_become_masks() {
    let mut c = RgbImage::new(2, 1);
    c.put_pixel(0, 0, Rgb([255, 0, 0]));
    c.put_pixel(1, 0, Rgb([0, 255, 0]));
    let m = prepare_image(&DynamicImage::ImageRgb8(c)).unwrap();
    assert_eq!(m.data, vec![76, 0, 0, 255, 149, 255, 0, 255]);
}

#[test]
fn pictures_with_alpha_become_masks() {
    let mut c = RgbaImage::new(2, 1);
    c.put_pixel(0, 0, Rgba([255, 255, 255, 128]));
    c.put_pixel(1, 0, Rgba([255, 255, 255, 0]));
    let m = prepare_image(&DynamicImage::ImageRgba8(c)).unwrap();
    assert_eq!(m.data, vec![128, 255, 0, 255, 0, 0, 0, 255]);
    let mut g = image::GrayAlphaImage::new(1, 1);
    g.put_pixel(0, 0, LumaA([255, 51]));
    let m = prepare_image(&DynamicImage::ImageLumaA8(g)).unwrap();
    assert_eq!(m.data[0], 51);
}

#[test]
fn bytes_become_masks() {
    let p = RgbaPixels { width: 1, height: 1, pixels: vec![255, 255, 255, 255] };
    let m = prepare_pixels(&p).unwrap();
    assert_eq!(m.data, vec![255, 255, 0, 255]);
}

#[test]
fn masks_without_pixels_are_empty() {
    let p = RgbaPixels { width: 5, height: 0, pixels: vec![] };
    assert_eq!(prepare_pixels(&p).unwrap().data.len(), 0);
    let none = prepare_image(&DynamicImage::ImageRgb8(RgbImage::new(0, 0))).unwrap();
    assert_eq!(none.data.len(), 0);
}

#[test]
fn files_are_loaded_once_for_each_change() {
    let mut x = IsfFFGLInstance::new(vec![
        IsfFFGLParam::Scale(s(1.0)),
        file("a", "a.png", true),
        picture("input"),
        file("b", "", true),
        file("c", "c.png", false),
        file("d", "d.png", true),
        IsfFFGLParam::Value,
    ]);
    assert_eq!(x.take_reloads(), vec![1, 5]);
    assert!(!waiting(&x, 1));
    assert!(waiting(&x, 3));
    assert!(!waiting(&x, 4));
    assert!(!waiting(&x, 5));
    assert_eq!(x.take_reloads(), Vec::<usize>::new());
    if let IsfFFGLParam::FileImage { needs_reload, path, .. } = &mut x.inputs[4] {
        *needs_reload = true;
        path.push('x');
    }
    assert_eq!(x.take_reloads(), vec![4]);
}

#[test]
fn textures_are_kept_by_name() {
    let mut x = IsfFFGLInstance::new(vec![]);
    let a = "a".to_string();
    let b = "b".to_string();
    assert_eq!(x.texture(&a), None);
    x.store_texture(&a, 10);
    x.store_texture(&b, 20);
    assert_eq!(x.texture(&a), Some(10));
    assert_eq!(x.texture(&b), Some(20));
    x.store_texture(&a, 30);
    assert_eq!(x.texture(&a), Some(30));
    assert_eq!(x.texture(&b), Some(20));
    assert_eq!(x.file_textures.len(), 2);
}

#[test]
fn shader_gets_the_picture_and_the_files() {
    let mut x = IsfFFGLInstance::new(vec![
        IsfFFGLParam::Scale(s(1.0)),
        file("mask", "m.png", false),
        picture("first"),
        file("missing", "n.png", false),
        picture("second"),
    ]);
    x.store_texture(&"mask".to_string(), 7);
    let names = |r: &Vec<ffgl_plugins::isf::ImageUniform>| {
        r.iter().map(|u| (u.name.clone(), u.source)).collect::<Vec<(String, TextureSource)>>()
    };
    assert_eq!(
        names(&x.image_uniforms(true)),
        vec![
            ("first".to_string(), TextureSource::Host),
            ("second".to_string(), TextureSource::Host),
            ("mask".to_string(), TextureSource::File(7)),
        ]
    );
    assert_eq!(
        names(&x.image_uniforms(false)),
        vec![("mask".to_string(), TextureSource::File(7))]
    );
}

#[test]
fn scale_comes_from_the_first_parameter() {
    let x = IsfFFGLInstance::new(vec![IsfFFGLParam::Scale(s(0.5)), IsfFFGLParam::Overlay]);
    assert_eq!(x.scale().bits, 0.25f32.to_bits());
    let x = IsfFFGLInstance::new(vec![IsfFFGLParam::Overlay, IsfFFGLParam::Scale(s(0.5))]);
    assert_eq!(x.scale().bits, 1.0f32.to_bits());
}

#[test]
fn smaller_settings_scale_no_larger() {
    let mut before = 0.0f32;
    for i in 0..=100 {
        let setting = i as f32 / 100.0;
        let x = IsfFFGLInstance::new(vec![IsfFFGLParam::Scale(s(setting))]);
        let scale = f32::from_bits(x.scale().bits);
        assert_eq!(scale, setting * setting);
        assert!(before <= scale && scale <= setting);
        before = scale;
    }
    let x = IsfFFGLInstance::new(vec![IsfFFGLParam::Scale(s(0.5))]);
    assert_eq!(render_size((1920, 1080), x.scale()), (480, 270));
}

#[test]
fn sizes_to_render() {
    assert_eq!(destination_size(Some((640, 480)), (1920, 1080)), (640, 480));
    assert_eq!(destination_size(None, (1920, 1080)), (1920, 1080));
    assert_eq!(render_size((1920, 1080), s(1.0)), (1920, 1080));
    assert_eq!(render_size((1920, 1080), s(0.25)), (480, 270));
    assert_eq!(render_size((1921, 3), s(0.25)), (480, 1));
    assert_eq!(render_size((0, 0), s(1.0)), (1, 1));
    assert_eq!(render_size((1920, 1080), s(f32::NAN)), (1, 1));
    assert_eq!(render_size((1920, 1080), s(-2.0)), (1, 1));
    assert_eq!(render_size((1920, 1080), s(1e30)), (u32::MAX, u32::MAX));
    assert_eq!(render_size((0x1000001, 7), s(1.0)), (0x1000000, 7));
}
