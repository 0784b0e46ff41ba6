//! What a shader instance decides from frame to frame: which mask files to load again,
//! how large to render, and which textures the shader is given.
use crate::edt::measurable;
use crate::mask::{
    distance_field, is_prepared, pixel_value, prepared_pixel, preprocess_mask_with_distance,
    relative_depth,
};
use crate::reals::{lemma_part, lemma_spread, lemma_times_same};
use crate::single::{fle, fmul, from_int, to_int, zero, Single};
use crate::single_facts::{
    lemma_bounded_from_int, lemma_bounded_product, lemma_from_int, lemma_magnitude_zero,
    lemma_whole_size,
};
use crate::single_order::{
    in_unit, lemma_from_int_order, lemma_mul_one, lemma_mul_order, lemma_one, lemma_to_int_order,
    lemma_unit_bounded, one, ONE,
};
use crate::values::{
    lemma_from_int_value, lemma_product, lemma_to_int_value, lemma_unit_value, lemma_value_order,
    near, slack, tiny, value,
};
use vstd::arithmetic::power2::{lemma2_to64, lemma_pow2_pos, pow2};
use vstd::prelude::*;

verus! {

/// A picture in memory, whatever its pixel format.
#[verifier::external_type_specification]
#[verifier::external_body]
pub struct ExDynamicImage(image::DynamicImage);

/// The pixels of a picture, row by row, as bytes of red, green, blue and alpha.
pub uninterp spec fn image_pixels(img: image::DynamicImage) -> Seq<u8>;

/// The width of a picture.
pub uninterp spec fn image_width(img: image::DynamicImage) -> u32;

/// The height of a picture.
pub uninterp spec fn image_height(img: image::DynamicImage) -> u32;

/// `image::DynamicImage::width` gives the width of the picture.
pub assume_specification[ image::DynamicImage::width ](img: &image::DynamicImage) -> (w: u32)
    ensures
        w == image_width(*img),
;

/// `image::DynamicImage::height` gives the height of the picture.
pub assume_specification[ image::DynamicImage::height ](img: &image::DynamicImage) -> (h: u32)
    ensures
        h == image_height(*img),
;

/// Calls `image::DynamicImage::to_rgba8`, which copies a picture of any pixel format to
/// one byte for each of red, green, blue and alpha, and takes the bytes of the copy with
/// `into_raw`. Claimed: the bytes depend on the picture alone, and there are enough of
/// them for its width and height. How the other formats become bytes is not said. The
/// bytes of a row, and those of the whole copy, must fit into the machine's sizes.
#[verifier::external_body]
fn rgba8(img: &image::DynamicImage) -> (pixels: Vec<u8>)
    requires
        4 * (image_width(*img) * image_height(*img)) <= isize::MAX,
        4 * image_width(*img) <= usize::MAX,
    ensures
        pixels@ == image_pixels(*img),
        4 * (image_width(*img) * image_height(*img)) <= pixels.len(),
{
    img.to_rgba8().into_raw()
}

/// A picture as bytes of red, green, blue and alpha.
#[derive(Debug)]
pub struct RgbaPixels {
    pub width: u32,
    pub height: u32,
    pub pixels: Vec<u8>,
}

/// A mask ready to become a texture.
#[derive(Debug)]
pub struct PreparedMask {
    pub width: u32,
    pub height: u32,
    pub data: Vec<u8>,
}

/// `m` is the mask of the picture with these bytes and sides.
pub open spec fn is_mask_of(m: PreparedMask, pixels: Seq<u8>, width: u32, height: u32) -> bool {
    &&& m.width == width
    &&& m.height == height
    &&& m.data.len() == 4 * (width * height)
    &&& forall|i: int|
        0 <= i < width * height ==> #[trigger] prepared_pixel(
            m.data@,
            i,
            pixel_value(pixels, i),
            relative_depth(distance_field(pixels, width as nat, height as nat), i),
        )
}

/// The mask of a picture given as bytes; none where its squared distances are too large
/// for the machine.
pub fn prepare_pixels(p: &RgbaPixels) -> (m: Option<PreparedMask>)
    requires
        4 * (p.width * p.height) <= p.pixels.len(),
    ensures
        m is Some <==> measurable(p.width as nat, p.height as nat),
        m matches Some(mask) ==> is_mask_of(mask, p.pixels@, p.width, p.height),
{
    let w: u128 = p.width as u128;
    let h: u128 = p.height as u128;
    assert(w * w <= 0x1_0000_0000 * 0x1_0000_0000) by (nonlinear_arith)
        requires
            w <= 0x1_0000_0000,
    ;
    assert(h * h <= 0x1_0000_0000 * 0x1_0000_0000) by (nonlinear_arith)
        requires
            h <= 0x1_0000_0000,
    ;
    if w * w + h * h > usize::MAX as u128 {
        return None;
    }
    proof {
        assert(p.width <= w * w + h * h) by (nonlinear_arith)
            requires
                w == p.width,
        ;
        assert(p.height <= w * w + h * h) by (nonlinear_arith)
            requires
                h == p.height,
        ;
    }
    let data = preprocess_mask_with_distance(
        p.pixels.as_slice(),
        p.width as usize,
        p.height as usize,
    );
    Some(PreparedMask { width: p.width, height: p.height, data })
}

/// A picture of this size can be copied to bytes: the machine can hold them all, and can
/// count those of a row, be there rows or not.
pub open spec fn fits(width: u32, height: u32) -> bool {
    4 * (width * height) <= isize::MAX && 4 * width <= usize::MAX
}

/// The mask of a picture; none where its bytes or its squared distances are too many for
/// the machine.
pub fn prepare_image(img: &image::DynamicImage) -> (m: Option<PreparedMask>)
    ensures
        m is Some <==> fits(image_width(*img), image_height(*img)) && measurable(
            image_width(*img) as nat,
            image_height(*img) as nat,
        ),
        m matches Some(mask) ==> is_mask_of(
            mask,
            image_pixels(*img),
            image_width(*img),
            image_height(*img),
        ),
{
    let width: u32 = img.width();
    let height: u32 = img.height();
    assert(width * height <= 0xffff_ffff * 0xffff_ffff) by (nonlinear_arith)
        requires
            width <= 0xffff_ffff,
            height <= 0xffff_ffff,
    ;
    let bytes: u128 = 4 * (width as u128 * height as u128);
    if bytes > isize::MAX as u128 || 4 * (width as u128) > usize::MAX as u128 {
        return None;
    }
    let pixels = rgba8(img);
    prepare_pixels(&RgbaPixels { width, height, pixels })
}

/// A parameter of the shader, as far as frames depend on it.
#[derive(Debug)]
pub enum IsfFFGLParam {
    /// The scale at which the picture is rendered.
    Scale(Single),
    /// Another parameter that every shader has.
    Overlay,
    /// A picture that the host hands in.
    Image { name: String },
    /// Any other input of the shader.
    Value,
    /// A picture from a file, to be loaded again where the file was changed.
    FileImage { name: String, path: String, needs_reload: bool },
}

/// A texture made from a file: the name of its parameter, and a handle.
#[derive(Debug)]
pub struct FileTexture {
    pub name: String,
    pub handle: u64,
}

/// Where the shader gets a texture from.
#[derive(Clone, Copy, Debug, PartialEq, Eq, Structural)]
pub enum TextureSource {
    /// The first picture that the host hands in.
    Host,
    /// The texture with this handle.
    File(u64),
}

/// A texture that the shader is given.
#[derive(Debug)]
pub struct ImageUniform {
    pub name: String,
    pub source: TextureSource,
}

/// A shader instance.
#[derive(Debug)]
pub struct IsfFFGLInstance {
    pub inputs: Vec<IsfFFGLParam>,
    pub file_textures: Vec<FileTexture>,
}

/// The parameter asks for its file to be loaded.
pub open spec fn wants_reload(p: IsfFFGLParam) -> bool {
    p matches IsfFFGLParam::FileImage { path, needs_reload, .. } && needs_reload && path@.len() > 0
}

/// The parameter with its file loaded.
pub open spec fn after_reload(p: IsfFFGLParam) -> IsfFFGLParam {
    if wants_reload(p) {
        match p {
            IsfFFGLParam::FileImage { name, path, .. } => IsfFFGLParam::FileImage {
                name,
                path,
                needs_reload: false,
            },
            other => other,
        }
    } else {
        p
    }
}

/// The places of the parameters whose files are to be loaded, in order.
pub open spec fn reloads(inputs: Seq<IsfFFGLParam>) -> Seq<int>
    decreases inputs.len(),
{
    if inputs.len() == 0 {
        seq![]
    } else {
        let before = reloads(inputs.drop_last());
        if wants_reload(inputs.last()) {
            before.push(inputs.len() - 1)
        } else {
            before
        }
    }
}

/// No two textures have the same name.
pub open spec fn distinct_names(t: Seq<FileTexture>) -> bool {
    forall|i: int, j: int|
        0 <= i < j < t.len() ==> (#[trigger] t[i]).name@ != (#[trigger] t[j]).name@
}

/// The handle that goes with a name, if there is one.
pub open spec fn handle_of(t: Seq<FileTexture>, name: Seq<char>) -> Option<u64>
    decreases t.len(),
{
    if t.len() == 0 {
        None
    } else if t.last().name@ == name {
        Some(t.last().handle)
    } else {
        handle_of(t.drop_last(), name)
    }
}

/// A texture with its name as characters.
pub open spec fn uniform_view(u: ImageUniform) -> (Seq<char>, TextureSource) {
    (u.name@, u.source)
}

/// The pictures of the host that the shader is given.
pub open spec fn host_images(inputs: Seq<IsfFFGLParam>) -> Seq<(Seq<char>, TextureSource)>
    decreases inputs.len(),
{
    if inputs.len() == 0 {
        seq![]
    } else {
        let before = host_images(inputs.drop_last());
        match inputs.last() {
            IsfFFGLParam::Image { name } => before.push((name@, TextureSource::Host)),
            _ => before,
        }
    }
}

/// The textures from files that the shader is given.
pub open spec fn file_images(
    inputs: Seq<IsfFFGLParam>,
    t: Seq<FileTexture>,
) -> Seq<(Seq<char>, TextureSource)>
    decreases inputs.len(),
{
    if inputs.len() == 0 {
        seq![]
    } else {
        let before = file_images(inputs.drop_last(), t);
        match inputs.last() {
            IsfFFGLParam::FileImage { name, .. } => match handle_of(t, name@) {
                Some(h) => before.push((name@, TextureSource::File(h))),
                None => before,
            },
            _ => before,
        }
    }
}

/// All textures that the shader is given: those of the host, if it hands in a picture,
/// then those from files.
pub open spec fn all_images(
    inputs: Seq<IsfFFGLParam>,
    t: Seq<FileTexture>,
    has_picture: bool,
) -> Seq<(Seq<char>, TextureSource)> {
    (if has_picture {
        host_images(inputs)
    } else {
        seq![]
    }) + file_images(inputs, t)
}

/// The scale that the first parameter gives: the square of its setting; one where it is
/// no scale.
pub open spec fn scale_of(p: IsfFFGLParam) -> Single {
    match p {
        IsfFFGLParam::Scale(v) => fmul(v, v),
        _ => one(),
    }
}

/// A side of the picture to render: scaled, and at least one.
pub open spec fn scaled_side(side: u32, scale: Single) -> int {
    let v: int = to_int(fmul(from_int(side as int), scale), 0, u32::MAX as int);
    if v < 1 {
        1
    } else {
        v
    }
}

fn scale_side(side: u32, scale: Single) -> (r: u32)
    ensures
        r == scaled_side(side, scale),
{
    let v: u32 = Single::from_u64(side as u64).times(scale).to_u32();
    if v < 1 {
        1
    } else {
        v
    }
}

/// The size of the picture: that of the first texture of the host, else of the canvas.
pub fn destination_size(first_texture: Option<(u32, u32)>, canvas: (u32, u32)) -> (r: (u32, u32))
    ensures
        r == (match first_texture {
            Some(size) => size,
            None => canvas,
        }),
{
    match first_texture {
        Some(size) => size,
        None => canvas,
    }
}

/// The size at which a picture of size `dest` is rendered.
pub fn render_size(dest: (u32, u32), scale: Single) -> (r: (u32, u32))
    ensures
        r.0 == scaled_side(dest.0, scale),
        r.1 == scaled_side(dest.1, scale),
{
    (scale_side(dest.0, scale), scale_side(dest.1, scale))
}

impl IsfFFGLInstance {
    /// An instance with these parameters and no texture.
    pub fn new(inputs: Vec<IsfFFGLParam>) -> (s: IsfFFGLInstance)
        ensures
            s.inputs@ == inputs@,
            s.file_textures@ == Seq::<FileTexture>::empty(),
            distinct_names(s.file_textures@),
    {
        IsfFFGLInstance { inputs, file_textures: Vec::new() }
    }

    /// The scale at which the picture is rendered.
    pub fn scale(&self) -> (s: Single)
        requires
            self.inputs.len() > 0,
        ensures
            s == scale_of(self.inputs[0]),
    {
        match &self.inputs[0] {
            IsfFFGLParam::Scale(v) => v.times(*v),
            _ => Single { bits: ONE },
        }
    }

    /// The places of the parameters whose files are to be loaded now; they count as
    /// loaded from here on, whether or not loading succeeds.
    pub fn take_reloads(&mut self) -> (r: Vec<usize>)
        ensures
            r@.map_values(|i: usize| i as int) == reloads(old(self).inputs@),
            final(self).inputs.len() == old(self).inputs.len(),
            forall|i: int|
                0 <= i < old(self).inputs.len() ==> #[trigger] final(self).inputs[i]
                    == after_reload(old(self).inputs[i]),
            final(self).file_textures == old(self).file_textures,
    {
        let mut r: Vec<usize> = Vec::new();
        let ghost all = self.inputs@;
        let mut i: usize = 0;
        assert(all.take(0) =~= Seq::<IsfFFGLParam>::empty());
        assert(r@.map_values(|i: usize| i as int) =~= reloads(all.take(0)));
        while i < self.inputs.len()
            invariant
                i <= self.inputs.len(),
                all == old(self).inputs@,
                self.inputs.len() == all.len(),
                forall|j: int| 0 <= j < i ==> #[trigger] self.inputs[j] == after_reload(all[j]),
                forall|j: int| i <= j < all.len() ==> #[trigger] self.inputs[j] == all[j],
                r@.map_values(|i: usize| i as int) == reloads(all.take(i as int)),
                self.file_textures == old(self).file_textures,
            decreases self.inputs.len() - i,
        {
            let ghost before = r@;
            assert(all.take(i + 1).drop_last() =~= all.take(i as int));
            let loading = reload_one(&mut self.inputs[i]);
            if loading {
                r.push(i);
                assert(r@.map_values(|i: usize| i as int) =~= before.map_values(
                    |i: usize| i as int,
                ).push(i as int));
            }
            i = i + 1;
        }
        assert(all.take(all.len() as int) =~= all);
        r
    }

    /// Keeps a texture under the name of its parameter, in place of an earlier one.
    pub fn store_texture(&mut self, name: &String, handle: u64)
        requires
            distinct_names(old(self).file_textures@),
        ensures
            distinct_names(final(self).file_textures@),
            forall|k: Seq<char>|
                #[trigger] handle_of(final(self).file_textures@, k) == (if k == name@ {
                    Some(handle)
                } else {
                    handle_of(old(self).file_textures@, k)
                }),
            final(self).inputs == old(self).inputs,
    {
        let ghost before = self.file_textures@;
        let mut i: usize = 0;
        while i < self.file_textures.len() && self.file_textures[i].name != *name
            invariant
                i <= self.file_textures.len(),
                *self == *old(self),
                self.file_textures@ == before,
                forall|j: int| 0 <= j < i ==> (#[trigger] before[j]).name@ != name@,
            decreases self.file_textures.len() - i,
        {
            i = i + 1;
        }
        if i < self.file_textures.len() {
            let kept = self.file_textures[i].name.clone();
            self.file_textures.set(i, FileTexture { name: kept, handle });
            proof {
                let t = self.file_textures@;
                assert forall|k: Seq<char>| #[trigger] handle_of(t, k) == (if k == name@ {
                    Some(handle)
                } else {
                    handle_of(before, k)
                }) by {
                    lemma_handle_after_update(before, i as int, t[i as int], k);
                }
            }
        } else {
            self.file_textures.push(FileTexture { name: name.clone(), handle });
            proof {
                let t = self.file_textures@;
                assert(t.drop_last() =~= before);
            }
        }
    }

    /// The handle of the texture kept under a name.
    pub fn texture(&self, name: &String) -> (h: Option<u64>)
        ensures
            h == handle_of(self.file_textures@, name@),
    {
        let ghost t = self.file_textures@;
        let mut n: usize = self.file_textures.len();
        assert(t.take(n as int) =~= t);
        while n > 0
            invariant
                n <= t.len(),
                t == self.file_textures@,
                handle_of(t, name@) == handle_of(t.take(n as int), name@),
            decreases n,
        {
            assert(t.take(n as int).drop_last() =~= t.take(n - 1));
            if self.file_textures[n - 1].name == *name {
                return Some(self.file_textures[n - 1].handle);
            }
            n = n - 1;
        }
        None
    }

    /// The textures that the shader is given, where `has_picture` says whether the host
    /// hands in a picture.
    pub fn image_uniforms(&self, has_picture: bool) -> (r: Vec<ImageUniform>)
        ensures
            r@.map_values(|u: ImageUniform| uniform_view(u)) == all_images(
                self.inputs@,
                self.file_textures@,
                has_picture,
            ),
    {
        let ghost all = self.inputs@;
        let ghost f = |u: ImageUniform| uniform_view(u);
        let mut r: Vec<ImageUniform> = Vec::new();
        let mut i: usize = 0;
        if has_picture {
            assert(r@.map_values(f) =~= host_images(all.take(0)));
            while i < self.inputs.len()
                invariant
                    i <= self.inputs.len(),
                    all == self.inputs@,
                    f == (|u: ImageUniform| uniform_view(u)),
                    r@.map_values(f) == host_images(all.take(i as int)),
                decreases self.inputs.len() - i,
            {
                let ghost before = r@;
                assert(all.take(i + 1).drop_last() =~= all.take(i as int));
                match &self.inputs[i] {
                    IsfFFGLParam::Image { name } => {
                        r.push(ImageUniform { name: name.clone(), source: TextureSource::Host });
                        assert(r@.map_values(f) =~= before.map_values(f).push(
                            (name@, TextureSource::Host),
                        ));
                    },
                    _ => {},
                }
                i = i + 1;
            }
            assert(all.take(all.len() as int) =~= all);
        }
        let ghost first = r@.map_values(f);
        assert(first =~= (if has_picture {
            host_images(all)
        } else {
            seq![]
        }));
        let mut i: usize = 0;
        assert(first + file_images(all.take(0), self.file_textures@) =~= first);
        while i < self.inputs.len()
            invariant
                i <= self.inputs.len(),
                all == self.inputs@,
                f == (|u: ImageUniform| uniform_view(u)),
                r@.map_values(f) == first + file_images(all.take(i as int), self.file_textures@),
            decreases self.inputs.len() - i,
        {
            let ghost before = r@;
            let ghost files = file_images(all.take(i as int), self.file_textures@);
            assert(all.take(i + 1).drop_last() =~= all.take(i as int));
            match &self.inputs[i] {
                IsfFFGLParam::FileImage { name, path: _, needs_reload: _ } => {
                    match self.texture(name) {
                        Some(h) => {
                            r.push(
                                ImageUniform {
                                    name: name.clone(),
                                    source: TextureSource::File(h),
                                },
                            );
                            assert(r@.map_values(f) =~= before.map_values(f).push(
                                (name@, TextureSource::File(h)),
                            ));
                            assert(first + files.push((name@, TextureSource::File(h))) =~= (first
                                + files).push((name@, TextureSource::File(h))));
                        },
                        None => {},
                    }
                },
                _ => {},
            }
            i = i + 1;
        }
        assert(all.take(all.len() as int) =~= all);
        r
    }
}

/// Counts a parameter's file as loaded, where it asks for that.
fn reload_one(p: &mut IsfFFGLParam) -> (r: bool)
    ensures
        r == wants_reload(*old(p)),
        *final(p) == after_reload(*old(p)),
{
    match p {
        IsfFFGLParam::FileImage { name: _, path, needs_reload } => {
            if *needs_reload && !path.as_str().is_empty() {
                *needs_reload = false;
                true
            } else {
                false
            }
        },
        _ => false,
    }
}

/// A handle changed in place, where its name occurs once.
proof fn lemma_handle_after_update(t: Seq<FileTexture>, i: int, new: FileTexture, k: Seq<char>)
    requires
        distinct_names(t),
        0 <= i < t.len(),
        new.name@ == t[i].name@,
    ensures
        handle_of(t.update(i, new), k) == (if k == new.name@ {
            Some(new.handle)
        } else {
            handle_of(t, k)
        }),
    decreases t.len(),
{
    let u = t.update(i, new);
    let last: int = t.len() - 1;
    if i == last {
        assert(u.drop_last() =~= t.drop_last());
    } else {
        assert(u.drop_last() =~= t.drop_last().update(i, new));
        assert(t[i].name@ != t[last].name@);
        lemma_handle_after_update(t.drop_last(), i, new, k);
    }
}

/// The files to be loaded are those of the parameters that ask for it, in order, each
/// once.
pub proof fn lemma_reloads(inputs: Seq<IsfFFGLParam>)
    ensures
        forall|k: int|
            0 <= k < reloads(inputs).len() ==> 0 <= #[trigger] reloads(inputs)[k] < inputs.len()
                && wants_reload(inputs[reloads(inputs)[k]]),
        forall|i: int|
            0 <= i < inputs.len() && wants_reload(#[trigger] inputs[i]) ==> reloads(
                inputs,
            ).contains(i),
        forall|a: int, b: int|
            0 <= a < b < reloads(inputs).len() ==> reloads(inputs)[a] < reloads(inputs)[b],
    decreases inputs.len(),
{
    if inputs.len() > 0 {
        let rest = inputs.drop_last();
        let n: int = inputs.len() - 1;
        let before = reloads(rest);
        let r = reloads(inputs);
        lemma_reloads(rest);
        assert forall|k: int| 0 <= k < r.len() implies 0 <= #[trigger] r[k] < inputs.len()
            && wants_reload(inputs[r[k]]) by {
            if k < before.len() {
                assert(r[k] == before[k]);
                assert(rest[before[k]] == inputs[before[k]]);
            }
        }
        assert forall|i: int|
            0 <= i < inputs.len() && wants_reload(#[trigger] inputs[i]) implies r.contains(i) by {
            if i < n {
                assert(rest[i] == inputs[i]);
                let k: int = choose|k: int| 0 <= k < before.len() && before[k] == i;
                assert(r[k] == i);
            } else {
                assert(r[r.len() - 1] == n);
            }
        }
        assert forall|a: int, b: int| 0 <= a < b < r.len() implies r[a] < r[b] by {
            assert(r[a] == before[a]);
            if b < before.len() {
                assert(r[b] == before[b]);
            }
        }
    }
}

/// A file is loaded once for each change: a frame later nothing is to be loaded.
pub proof fn lemma_loaded_once(before: Seq<IsfFFGLParam>, after: Seq<IsfFFGLParam>)
    requires
        after.len() == before.len(),
        forall|i: int| 0 <= i < before.len() ==> #[trigger] after[i] == after_reload(before[i]),
    ensures
        reloads(after) == Seq::<int>::empty(),
{
    lemma_reloads(after);
    if reloads(after).len() > 0 {
        let i: int = reloads(after)[0];
        assert(wants_reload(after[i]));
        assert(after[i] == after_reload(before[i]));
    }
}

/// A setting from zero to one gives a scale from zero to one, and none that is larger than
/// the setting; a larger such setting gives no smaller scale.
pub proof fn lemma_setting_scales(a: Single, b: Single)
    requires
        in_unit(a),
        in_unit(b),
        fle(a, b),
    ensures
        in_unit(scale_of(IsfFFGLParam::Scale(a))),
        fle(scale_of(IsfFFGLParam::Scale(a)), a),
        fle(scale_of(IsfFFGLParam::Scale(a)), scale_of(IsfFFGLParam::Scale(b))),
{
    lemma_unit_bounded(a);
    lemma_unit_bounded(b);
    lemma_one();
    lemma_mul_order(a, one(), a);
    lemma_mul_one(a);
    lemma_mul_order(a, b, a);
    lemma_mul_order(a, b, b);
}

/// A scale of one keeps the sides, as far as they are exact in binary32; none becomes
/// less than one.
pub proof fn lemma_full_scale(side: u32)
    requires
        side <= 0x100_0000,
    ensures
        scaled_side(side, one()) == (if side == 0 {
            1int
        } else {
            side as int
        }),
{
    let x = from_int(side as int);
    lemma_from_int(side as int);
    lemma_mul_one(x);
    lemma_whole_size(x, side as int);
    lemma_pow2_pos(149);
    assert(to_int(x, 0, u32::MAX as int) == side) by {
        reveal(to_int);
        vstd::arithmetic::div_mod::lemma_div_multiples_vanish(side as int, pow2(149) as int);
        assert(pow2(149) * side == side * pow2(149)) by (nonlinear_arith);
    }
}

/// A larger scale makes no side smaller; with a scale of at most one no side becomes
/// larger.
pub proof fn lemma_scale_order(side: u32, a: Single, b: Single)
    requires
        fle(zero(), a),
        fle(a, b),
        fle(b, one()),
    ensures
        1 <= scaled_side(side, a) <= scaled_side(side, b),
        scaled_side(side, b) <= scaled_side(side, one()),
{
    let x = from_int(side as int);
    lemma_one();
    lemma_unit_bounded(a);
    lemma_unit_bounded(b);
    lemma2_to64();
    lemma_bounded_from_int(side as nat, 32);
    lemma_from_int_order(0, side as int);
    lemma_from_int(0);
    lemma_whole_size(from_int(0), 0);
    lemma_mul_order(a, b, x);
    lemma_mul_order(b, one(), x);
    lemma_unit_bounded(one());
    lemma_bounded_product(x, a, 32, 0);
    lemma_bounded_product(x, b, 32, 0);
    lemma_bounded_product(x, one(), 32, 0);
    lemma_to_int_order(fmul(x, a), fmul(x, b), 0, u32::MAX as int);
    lemma_to_int_order(fmul(x, b), fmul(x, one()), 0, u32::MAX as int);
}

/// What is prepared of a picture has its sides, and its bytes are the prepared mask.
pub proof fn lemma_mask_is_prepared(m: PreparedMask, pixels: Seq<u8>, width: u32, height: u32)
    requires
        is_mask_of(m, pixels, width, height),
    ensures
        m.width == width,
        m.height == height,
        is_prepared(m.data@, pixels, width as nat, height as nat),
{
}

/// A file is to be loaded exactly where its parameter asks for it and names one. Loading
/// changes nothing but that the parameter asks no longer.
pub proof fn lemma_reload(p: IsfFFGLParam)
    ensures
        match p {
            IsfFFGLParam::FileImage { name, path, needs_reload } => {
                &&& wants_reload(p) <==> needs_reload && path@.len() > 0
                &&& after_reload(p) == (IsfFFGLParam::FileImage {
                    name,
                    path,
                    needs_reload: needs_reload && path@.len() == 0,
                })
            },
            _ => !wants_reload(p) && after_reload(p) == p,
        },
{
}

/// A name has the handle that is kept with it, and one that is not kept has none.
pub proof fn lemma_handle_of(t: Seq<FileTexture>, name: Seq<char>)
    requires
        distinct_names(t),
    ensures
        forall|i: int|
            0 <= i < t.len() && (#[trigger] t[i]).name@ == name ==> handle_of(t, name) == Some(
                t[i].handle,
            ),
        (forall|i: int| 0 <= i < t.len() ==> (#[trigger] t[i]).name@ != name) <==> handle_of(
            t,
            name,
        ) is None,
    decreases t.len(),
{
    if t.len() > 0 {
        let rest = t.drop_last();
        let last: int = t.len() - 1;
        assert(forall|i: int| 0 <= i < rest.len() ==> #[trigger] rest[i] == t[i]);
        lemma_handle_of(rest, name);
        assert forall|i: int| 0 <= i < t.len() && (#[trigger] t[i]).name@ == name implies handle_of(
            t,
            name,
        ) == Some(t[i].handle) by {
            if i < last {
                assert(rest[i].name@ == name);
                assert(t[i].name@ != t[last].name@);
            }
        }
        if forall|i: int| 0 <= i < t.len() ==> (#[trigger] t[i]).name@ != name {
            assert(t[last].name@ != name);
            assert forall|i: int| 0 <= i < rest.len() implies (#[trigger] rest[i]).name@ != name by {
                assert(t[i].name@ != name);
            }
        }
        if handle_of(t, name) is None {
            assert forall|i: int| 0 <= i < t.len() implies (#[trigger] t[i]).name@ != name by {
                if i < last {
                    assert(rest[i].name@ != name);
                }
            }
        }
    }
}

/// The name of a parameter that is a picture.
pub open spec fn picture_name(p: IsfFFGLParam) -> Seq<char> {
    match p {
        IsfFFGLParam::Image { name } => name@,
        IsfFFGLParam::FileImage { name, .. } => name@,
        _ => seq![],
    }
}

/// The shader is given the host's picture under the name of every parameter that is a picture
/// of the host, each once and in their order: `places` are the places of those parameters.
pub proof fn lemma_host_images(inputs: Seq<IsfFFGLParam>) -> (places: Seq<int>)
    ensures
        host_images(inputs).len() == places.len(),
        forall|k: int|
            0 <= k < places.len() ==> {
                &&& 0 <= #[trigger] places[k] < inputs.len()
                &&& inputs[places[k]] is Image
                &&& host_images(inputs)[k] == (picture_name(inputs[places[k]]), TextureSource::Host)
            },
        forall|a: int, b: int| 0 <= a < b < places.len() ==> places[a] < places[b],
        forall|i: int|
            0 <= i < inputs.len() && (#[trigger] inputs[i]) is Image ==> places.contains(i),
    decreases inputs.len(),
{
    if inputs.len() == 0 {
        seq![]
    } else {
        let rest = inputs.drop_last();
        let last: int = inputs.len() - 1;
        let before = lemma_host_images(rest);
        assert(forall|i: int| 0 <= i < rest.len() ==> #[trigger] rest[i] == inputs[i]);
        let places = if inputs[last] is Image {
            before.push(last)
        } else {
            before
        };
        assert forall|k: int| 0 <= k < places.len() implies {
            &&& 0 <= #[trigger] places[k] < inputs.len()
            &&& inputs[places[k]] is Image
            &&& host_images(inputs)[k] == (picture_name(inputs[places[k]]), TextureSource::Host)
        } by {
            if k < before.len() {
                assert(places[k] == before[k]);
                assert(rest[before[k]] == inputs[before[k]]);
                assert(host_images(inputs)[k] == host_images(rest)[k]);
            }
        }
        assert forall|a: int, b: int| 0 <= a < b < places.len() implies places[a] < places[b] by {
            assert(places[a] == before[a]);
            if b < before.len() {
                assert(places[b] == before[b]);
            }
        }
        assert forall|i: int|
            0 <= i < inputs.len() && (#[trigger] inputs[i]) is Image implies places.contains(i) by {
            if i < last {
                assert(rest[i] is Image);
                let k: int = choose|k: int| 0 <= k < before.len() && before[k] == i;
                assert(places[k] == i);
            } else {
                assert(places[places.len() - 1] == i);
            }
        }
        places
    }
}

/// The parameter is a picture from a file that has a texture.
pub open spec fn has_texture(p: IsfFFGLParam, t: Seq<FileTexture>) -> bool {
    p is FileImage && handle_of(t, picture_name(p)) is Some
}

/// The shader is given the texture of every parameter that is a picture from a file and has
/// one, under the name of the parameter, each once and in their order: `places` are the
/// places of those parameters.
pub proof fn lemma_file_images(inputs: Seq<IsfFFGLParam>, t: Seq<FileTexture>) -> (places: Seq<int>)
    ensures
        file_images(inputs, t).len() == places.len(),
        forall|k: int|
            0 <= k < places.len() ==> {
                let name = picture_name(inputs[places[k]]);
                &&& 0 <= #[trigger] places[k] < inputs.len()
                &&& inputs[places[k]] is FileImage
                &&& handle_of(t, name) is Some
                &&& file_images(inputs, t)[k] == (name, TextureSource::File(handle_of(t, name)->0))
            },
        forall|a: int, b: int| 0 <= a < b < places.len() ==> places[a] < places[b],
        forall|i: int|
            0 <= i < inputs.len() && has_texture(#[trigger] inputs[i], t) ==> places.contains(i),
    decreases inputs.len(),
{
    if inputs.len() == 0 {
        seq![]
    } else {
        let rest = inputs.drop_last();
        let last: int = inputs.len() - 1;
        let before = lemma_file_images(rest, t);
        assert(forall|i: int| 0 <= i < rest.len() ==> #[trigger] rest[i] == inputs[i]);
        let places = if has_texture(inputs[last], t) {
            before.push(last)
        } else {
            before
        };
        assert forall|k: int| 0 <= k < places.len() implies {
            let name = picture_name(inputs[places[k]]);
            &&& 0 <= #[trigger] places[k] < inputs.len()
            &&& inputs[places[k]] is FileImage
            &&& handle_of(t, name) is Some
            &&& file_images(inputs, t)[k] == (name, TextureSource::File(handle_of(t, name)->0))
        } by {
            if k < before.len() {
                assert(places[k] == before[k]);
                assert(rest[before[k]] == inputs[before[k]]);
                assert(file_images(inputs, t)[k] == file_images(rest, t)[k]);
            }
        }
        assert forall|a: int, b: int| 0 <= a < b < places.len() implies places[a] < places[b] by {
            assert(places[a] == before[a]);
            if b < before.len() {
                assert(places[b] == before[b]);
            }
        }
        assert forall|i: int|
            0 <= i < inputs.len() && has_texture(#[trigger] inputs[i], t) implies places.contains(
            i,
        ) by {
            if i < last {
                assert(has_texture(rest[i], t));
                let k: int = choose|k: int| 0 <= k < before.len() && before[k] == i;
                assert(places[k] == i);
            } else {
                assert(places[places.len() - 1] == i);
            }
        }
        places
    }
}

/// The textures of the host come first, where it hands in a picture, then those from files,
/// and no others.
pub proof fn lemma_all_images(inputs: Seq<IsfFFGLParam>, t: Seq<FileTexture>)
    ensures
        all_images(inputs, t, false) == file_images(inputs, t),
        all_images(inputs, t, true).len() == host_images(inputs).len() + file_images(
            inputs,
            t,
        ).len(),
        forall|k: int|
            0 <= k < host_images(inputs).len() ==> #[trigger] all_images(inputs, t, true)[k]
                == host_images(inputs)[k],
        forall|k: int|
            0 <= k < file_images(inputs, t).len() ==> all_images(inputs, t, true)[host_images(
                inputs,
            ).len() + k] == #[trigger] file_images(inputs, t)[k],
{
    assert(all_images(inputs, t, false) =~= file_images(inputs, t));
}

/// A side is scaled to the whole part of its product with the scale, up to rounding, but to
/// one at least.
pub proof fn lemma_scaled_side_value(side: u32, scale: Single)
    requires
        in_unit(scale),
    ensures
        ({
            let exact: real = side as real * value(scale);
            let v: int = scaled_side(side, scale);
            &&& v >= 1
            &&& v > 1 ==> v as real <= exact + exact / 4194304real + tiny()
            &&& exact - (exact / 4194304real + tiny()) < v as real + 1real
        }),
{
    let x = from_int(side as int);
    lemma_from_int_value(side as int);
    lemma_unit_value(scale);
    let a: real = side as real;
    let s: real = value(scale);
    let f: real = value(x);
    let exact: real = a * s;
    lemma_times_same(0real, a, s);
    lemma_spread(0real, 0real, s);
    lemma_spread(a, slack(a), s);
    lemma_part(a, s);
    lemma_times_same(f, a + slack(a), s);
    lemma_times_same(a - slack(a), f, s);
    lemma_times_same(s, 1real, a);
    lemma_spread(a, 0real, s);
    let p = fmul(x, scale);
    lemma_product(x, scale, 4294967296real * 2real);
    assert(value(p) >= 0real) by {
        lemma_magnitude_zero();
        lemma_mul_order(zero(), scale, x);
        lemma_mul_order(scale, scale, x);
        lemma_value_order(zero(), x);
        lemma_value_order(zero(), p);
    }
    if value(p) < 4294967296real {
        lemma_to_int_value(p, 0, u32::MAX as int);
    } else {
        lemma_saturates(p);
    }
}

/// What is too large for a side becomes the largest one.
proof fn lemma_saturates(p: Single)
    requires
        p.is_finite(),
        value(p) >= 4294967296real,
        value(p) <= 4294967296real + 1024real,
    ensures
        to_int(p, 0, u32::MAX as int) == u32::MAX,
{
    lemma_to_int_value(p, 0, 0x1_0000_1000);
    reveal(to_int);
}

/// The scale is the square of the setting of the first parameter, where that is a scale.
pub proof fn lemma_scale_value(v: Single)
    requires
        in_unit(v),
    ensures
        near(
            value(scale_of(IsfFFGLParam::Scale(v))),
            value(v) * value(v),
            1real / 16000000real,
        ),
        value(scale_of(IsfFFGLParam::Overlay)) == 1real,
        value(scale_of(IsfFFGLParam::Value)) == 1real,
{
    lemma_unit_value(v);
    let a: real = value(v);
    lemma_times_same(a, 1real, a);
    lemma_times_same(0real, a, a);
    lemma_spread(0real, 0real, a);
    lemma_product(v, v, 1real);
}

} // verus!
