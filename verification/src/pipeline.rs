use crate::compose::{compose, composed_chan};
use crate::raster::{img_of, lemma_img_eq, lemma_img_of_chan, lemma_img_of_shape, Img, Raster};
use crate::round::{round, round_chan};
use crate::shadow::{shadow_chan, shadow_padding, synthesize};
use vstd::arithmetic::div_mod::lemma_fundamental_div_mod;
use vstd::prelude::*;

verus! {

/// The default corner radius.
pub const DEFAULT_CORNER_RADIUS: u32 = 8;

/// The default shadow offset along each axis.
pub const DEFAULT_OFFSET: i32 = -20;

/// The default opacity cap of the shadow.
pub const DEFAULT_ALPHA: u8 = 150;

/// The default shadow spread.
pub const DEFAULT_SPREAD: u32 = 26;

/// The blur radius used when none is chosen.
pub const DEFAULT_BLUR_RADIUS: u32 = 5;

/// The parameters of one run: corner radius, shadow offset, blur radius,
/// spread, and the shadow's opacity cap.
#[derive(Clone, Copy)]
pub struct ShadowParams {
    pub corner_radius: u32,
    pub offset_x: i32,
    pub offset_y: i32,
    pub blur_radius: u32,
    pub spread: u32,
    pub alpha: u8,
}

/// Why a run was refused.
#[derive(Clone, Copy, Debug, PartialEq, Eq, Structural)]
pub enum ShadowError {
    /// The source raster has no pixels, or a canvas of the computed
    /// dimensions would not fit in memory.
    InvalidDimensions,
}

/// Whether the shadow canvas and the composed canvas both fit in memory.
pub open spec fn fits(img: Img, params: ShadowParams) -> bool {
    let p = shadow_padding(params.spread as int, params.blur_radius as int);
    let ax = vstd::math::abs(params.offset_x as int);
    let ay = vstd::math::abs(params.offset_y as int);
    &&& img.width + 2 * p <= usize::MAX
    &&& img.height + 2 * p <= usize::MAX
    &&& (img.width + 2 * p) * (img.height + 2 * p) * 4 <= usize::MAX
    &&& img.width + ax + 2 * p <= usize::MAX
    &&& img.height + ay + 2 * p <= usize::MAX
    &&& (img.width + ax + 2 * p) * (img.height + ay + 2 * p) * 4 <= usize::MAX
}

/// The rounded source as an image.
pub open spec fn rounded_img(img: Img, radius: int) -> Img {
    img_of(img.width, img.height, |x: int, y: int, c: int| round_chan(img, radius, x, y, c) as u8)
}

/// The shadow layer of `img` as an image.
pub open spec fn shadow_img(img: Img, blur: int, spread: int, sa: int) -> Img {
    let p = shadow_padding(spread, blur);
    img_of(
        (img.width + 2 * p) as nat,
        (img.height + 2 * p) as nat,
        |x: int, y: int, c: int| shadow_chan(img, blur, spread, sa, x, y, c) as u8,
    )
}

/// What the full pipeline returns at channel `c` of `(x, y)`: the rounded
/// source composed over the shadow synthesized from it.
pub open spec fn pipeline_chan(img: Img, params: ShadowParams, x: int, y: int, c: int) -> int {
    let rd = rounded_img(img, params.corner_radius as int);
    let sh = shadow_img(
        rd,
        params.blur_radius as int,
        params.spread as int,
        params.alpha as int,
    );
    composed_chan(
        rd,
        sh,
        params.offset_x as int,
        params.offset_y as int,
        shadow_padding(params.spread as int, params.blur_radius as int),
        x,
        y,
        c,
    )
}

/// Runs the whole pipeline: rounds the corners of `src`, synthesizes a
/// drop shadow from the rounded raster, and composes the two. Fails
/// exactly when the source has no pixels or a canvas would outgrow
/// memory; cosmetic parameters are clamped, never refused.
pub fn apply(src: &Raster, params: ShadowParams) -> (r: Result<Raster, ShadowError>)
    requires
        src@.wf(),
    ensures
        r is Ok <==> src@.width > 0 && src@.height > 0 && fits(src@, params),
        r is Err ==> r == Result::<Raster, ShadowError>::Err(ShadowError::InvalidDimensions),
        r matches Ok(out) ==> {
            let p = shadow_padding(params.spread as int, params.blur_radius as int);
            &&& out@.wf()
            &&& out@.width == src@.width + vstd::math::abs(params.offset_x as int) + 2 * p
            &&& out@.height == src@.height + vstd::math::abs(params.offset_y as int) + 2 * p
            &&& forall|x: int, y: int, c: int|
                out@.in_bounds(x, y) && 0 <= c < 4 ==> out@.chan(x, y, c) as int == pipeline_chan(
                    src@,
                    params,
                    x,
                    y,
                    c,
                )
        },
{
    let w = src.width();
    let h = src.height();
    if w == 0 || h == 0 {
        return Err(ShadowError::InvalidDimensions);
    }
    let p64: u64 = params.spread as u64 + 2 * (params.blur_radius as u64);
    let ax64: u64 = if params.offset_x >= 0 {
        params.offset_x as u64
    } else {
        (-(params.offset_x as i64)) as u64
    };
    let ay64: u64 = if params.offset_y >= 0 {
        params.offset_y as u64
    } else {
        (-(params.offset_y as i64)) as u64
    };
    let max: u128 = usize::MAX as u128;
    let max4: u128 = max / 4;
    proof {
        lemma_fundamental_div_mod(usize::MAX as int, 4);
    }
    let sw: u128 = w as u128 + 2 * (p64 as u128);
    let sh: u128 = h as u128 + 2 * (p64 as u128);
    let cw: u128 = sw + ax64 as u128;
    let ch: u128 = sh + ay64 as u128;
    let ok = if sw <= max && sh <= max && cw <= max && ch <= max {
        proof {
            assert(sw * sh <= max * max && cw * ch <= max * max) by (nonlinear_arith)
                requires
                    0 <= sw <= max,
                    0 <= sh <= max,
                    0 <= cw <= max,
                    0 <= ch <= max,
            ;
            assert(max * max < 0x100000000000000000000000000000000) by (nonlinear_arith)
                requires
                    0 <= max <= 0xffffffffffffffff,
            ;
        }
        sw * sh <= max4 && cw * ch <= max4
    } else {
        false
    };
    if !ok {
        return Err(ShadowError::InvalidDimensions);
    }
    let ghost radius = params.corner_radius as int;
    let ghost blur = params.blur_radius as int;
    let ghost spread = params.spread as int;
    let ghost sa = params.alpha as int;
    let ghost pi = shadow_padding(spread, blur);
    let rounded = round(src, params.corner_radius);
    proof {
        let rd = rounded_img(src@, radius);
        lemma_img_of_shape(src@.width, src@.height, |x: int, y: int, c: int| round_chan(src@, radius, x, y, c) as u8);
        assert forall|x: int, y: int, c: int|
            rounded@.in_bounds(x, y) && 0 <= c < 4 implies rounded@.chan(x, y, c) == rd.chan(
            x,
            y,
            c,
        ) by {
            lemma_img_of_chan(
                src@.width,
                src@.height,
                |x: int, y: int, c: int| round_chan(src@, radius, x, y, c) as u8,
                x,
                y,
                c,
            );
        }
        lemma_img_eq(rounded@, rd);
    }
    let shadow = synthesize(&rounded, params.blur_radius, params.spread, params.alpha);
    proof {
        let rd = rounded_img(src@, radius);
        let shi = shadow_img(rd, blur, spread, sa);
        lemma_img_of_shape(
            (rd.width + 2 * pi) as nat,
            (rd.height + 2 * pi) as nat,
            |x: int, y: int, c: int| shadow_chan(rd, blur, spread, sa, x, y, c) as u8,
        );
        assert forall|x: int, y: int, c: int|
            shadow@.in_bounds(x, y) && 0 <= c < 4 implies shadow@.chan(x, y, c) == shi.chan(
            x,
            y,
            c,
        ) by {
            lemma_img_of_chan(
                (rd.width + 2 * pi) as nat,
                (rd.height + 2 * pi) as nat,
                |x: int, y: int, c: int| shadow_chan(rd, blur, spread, sa, x, y, c) as u8,
                x,
                y,
                c,
            );
        }
        lemma_img_eq(shadow@, shi);
    }
    let padding = p64 as usize;
    let out = compose(&rounded, &shadow, params.offset_x, params.offset_y, padding);
    Ok(out)
}

/// With zero offsets, zero spread and zero blur radius, the pipeline
/// leaves the canvas the size of the source, and every pixel at which the
/// rounded source is fully opaque comes out as the rounded source's own
/// pixel.
pub proof fn lemma_plain_params_identity(img: Img, params: ShadowParams, x: int, y: int, c: int)
    requires
        params.offset_x == 0,
        params.offset_y == 0,
        params.spread == 0,
        params.blur_radius == 0,
        0 <= x < img.width,
        0 <= y < img.height,
        0 <= c < 4,
        round_chan(img, params.corner_radius as int, x, y, 3) == 255,
    ensures
        pipeline_chan(img, params, x, y, c) == round_chan(img, params.corner_radius as int, x, y, c),
{
    let radius = params.corner_radius as int;
    let rd = rounded_img(img, radius);
    let f = |x: int, y: int, c: int| round_chan(img, radius, x, y, c) as u8;
    lemma_img_of_shape(img.width, img.height, f);
    lemma_img_of_chan(img.width, img.height, f, x, y, c);
    lemma_img_of_chan(img.width, img.height, f, x, y, 3);
    crate::round::lemma_round_chan_bounds(img, radius, x, y, c);
    crate::round::lemma_round_chan_bounds(img, radius, x, y, 3);
    let sh = shadow_img(rd, 0, 0, params.alpha as int);
    crate::compose::lemma_compose_opaque_source(rd, sh, x, y, c);
}

} // verus!
