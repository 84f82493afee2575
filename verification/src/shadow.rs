use crate::math::{
    isqrt, isqrt_spec, lemma_isqrt_bounds, lemma_sum_bounds, lemma_sum_congruence,
    lemma_sum_extend, sum_over,
};
use crate::raster::{Img, Raster};
use vstd::arithmetic::div_mod::{lemma_div_basics, lemma_div_is_ordered, lemma_div_multiples_vanish};
use vstd::prelude::*;

verus! {

/// The symmetric padding a shadow canvas adds around its source: the
/// spread plus twice the blur radius. The spread is taken as uniform
/// extra padding (and extra blur), not as a resize of the silhouette.
pub open spec fn shadow_padding(spread: int, blur: int) -> int {
    spread + 2 * blur
}

/// The box-blur window radius actually applied: widened by half the spread.
pub open spec fn adjusted_blur(spread: int, blur: int) -> int {
    blur + spread / 2
}

/// The darkened silhouette: RGB black everywhere; the alpha of the source,
/// scaled by `sa / 255`, pasted `p` pixels in from every edge; zero
/// elsewhere. Defined at every integer position.
pub open spec fn darkened_chan(img: Img, p: int, sa: int, x: int, y: int, c: int) -> int {
    if c == 3 {
        img.sample(x - p, y - p, 3) * sa / 255
    } else {
        0
    }
}

/// The horizontal box-blur pass over the darkened silhouette: the mean of
/// the `2 * b + 1` wide row window, rounded down.
pub open spec fn hblur_chan(img: Img, p: int, sa: int, b: int, x: int, y: int, c: int) -> int {
    sum_over(|k: int| darkened_chan(img, p, sa, k, y, c), x - b, x + b + 1) / (2 * b + 1)
}

/// The vertical box-blur pass over the horizontal one.
pub open spec fn vblur_chan(img: Img, p: int, sa: int, b: int, x: int, y: int, c: int) -> int {
    sum_over(|k: int| hblur_chan(img, p, sa, b, x, k, c), y - b, y + b + 1) / (2 * b + 1)
}

/// The cleanup scaling: a channel `v` of a pixel whose blurred alpha is
/// `a > 0` is scaled by the square root of `a / 255`, in the integer form
/// `isqrt(255 * a) / 255`; a pixel with zero alpha is cleared.
pub open spec fn cleaned(v: int, a: int) -> int {
    if a > 0 {
        v * isqrt_spec((255 * a) as nat) / 255
    } else {
        0
    }
}

/// What `synthesize` returns at channel `c` of `(x, y)`: the darkened,
/// padded silhouette, box-blurred once along each axis; when any blurring
/// was applied, the cleanup scaling follows.
pub open spec fn shadow_chan(
    img: Img,
    blur: int,
    spread: int,
    sa: int,
    x: int,
    y: int,
    c: int,
) -> int {
    let p = shadow_padding(spread, blur);
    let b = adjusted_blur(spread, blur);
    if b > 0 {
        cleaned(vblur_chan(img, p, sa, b, x, y, c), vblur_chan(img, p, sa, b, x, y, 3))
    } else {
        vblur_chan(img, p, sa, b, x, y, c)
    }
}

/// The darkened silhouette vanishes on the RGB channels and at every
/// position whose source pixel lies outside the source raster.
proof fn lemma_darkened_zero(img: Img, p: int, sa: int, x: int, y: int, c: int)
    requires
        c != 3 || !img.in_bounds(x - p, y - p),
    ensures
        darkened_chan(img, p, sa, x, y, c) == 0,
{
    if c == 3 {
        assert(img.sample(x - p, y - p, 3) == 0);
        lemma_div_basics(255);
    }
}

/// A raster that holds the darkened silhouette on its canvas samples as
/// the darkened silhouette at every integer position.
proof fn lemma_darkened_sample(img: Img, d: Img, p: int, sa: int)
    requires
        p >= 0,
        d.width == img.width + 2 * p,
        d.height == img.height + 2 * p,
        forall|x: int, y: int, c: int|
            d.in_bounds(x, y) && 0 <= c < 4 ==> d.chan(x, y, c) as int == darkened_chan(
                img,
                p,
                sa,
                x,
                y,
                c,
            ),
    ensures
        forall|x: int, y: int, c: int|
            0 <= c < 4 ==> d.sample(x, y, c) == darkened_chan(img, p, sa, x, y, c),
{
    assert forall|x: int, y: int, c: int| 0 <= c < 4 implies d.sample(x, y, c) == darkened_chan(
        img,
        p,
        sa,
        x,
        y,
        c,
    ) by {
        if !d.in_bounds(x, y) {
            lemma_darkened_zero(img, p, sa, x, y, c);
        }
    }
}

/// A whole row outside the canvas blurs horizontally to zero.
proof fn lemma_hblur_row_zero(img: Img, p: int, sa: int, b: int, x: int, y: int, c: int)
    requires
        p >= 0,
        b >= 0,
        y < 0 || y >= img.height + 2 * p,
    ensures
        hblur_chan(img, p, sa, b, x, y, c) == 0,
{
    let f = |k: int| darkened_chan(img, p, sa, k, y, c);
    assert forall|k: int| x - b <= k < x + b + 1 implies #[trigger] f(k) == 0 by {
        lemma_darkened_zero(img, p, sa, k, y, c);
    }
    lemma_sum_bounds(f, x - b, x + b + 1, 0, 0);
    lemma_div_basics(2 * b + 1);
}

/// Pastes the alpha silhouette of `src` into a canvas grown by `p` on
/// every side: RGB black, alpha scaled by `sa / 255`.
#[verifier::loop_isolation(false)]
fn darken_pad(src: &Raster, p: usize, sa: u8) -> (out: Raster)
    requires
        src@.wf(),
        src@.width + 2 * p <= usize::MAX,
        src@.height + 2 * p <= usize::MAX,
        (src@.width + 2 * p) * (src@.height + 2 * p) * 4 <= usize::MAX,
    ensures
        out@.wf(),
        out@.width == src@.width + 2 * p,
        out@.height == src@.height + 2 * p,
        forall|x: int, y: int, c: int|
            out@.in_bounds(x, y) && 0 <= c < 4 ==> out@.chan(x, y, c) as int == darkened_chan(
                src@,
                p as int,
                sa as int,
                x,
                y,
                c,
            ),
{
    let w = src.width();
    let h = src.height();
    let nw = w + 2 * p;
    let nh = h + 2 * p;
    let mut out = Raster::new(nw, nh);
    let mut y: usize = 0;
    while y < h
        invariant
            y <= h,
            out@.wf(),
            out@.width == nw,
            out@.height == nh,
            forall|i: int, j: int, c: int|
                out@.in_bounds(i, j) && 0 <= c < 4 ==> out@.chan(i, j, c) as int == (if c == 3 && p
                    <= j < p + y {
                    darkened_chan(src@, p as int, sa as int, i, j, c)
                } else {
                    0
                }),
        decreases h - y,
    {
        let mut x: usize = 0;
        while x < w
            invariant
                x <= w,
                y < h,
                out@.wf(),
                out@.width == nw,
                out@.height == nh,
                forall|i: int, j: int, c: int|
                    out@.in_bounds(i, j) && 0 <= c < 4 ==> out@.chan(i, j, c) as int == (if c == 3
                        && (p <= j < p + y || (j == p + y && i < p + x)) {
                        darkened_chan(src@, p as int, sa as int, i, j, c)
                    } else {
                        0
                    }),
            decreases w - x,
        {
            let a = src.get(x, y, 3);
            proof {
                assert((a as int) * (sa as int) <= 255 * 255) by (nonlinear_arith)
                    requires
                        0 <= a as int <= 255,
                        0 <= sa as int <= 255,
                ;
                lemma_div_is_ordered((a as int) * (sa as int), 255int * 255, 255);
            }
            let v = ((a as u64) * (sa as u64) / 255) as u8;
            out.set(x + p, y + p, 3, v);
            proof {
                assert(out@.chan((x + p) as int, (y + p) as int, 3) as int == darkened_chan(
                    src@,
                    p as int,
                    sa as int,
                    (x + p) as int,
                    (y + p) as int,
                    3,
                ));
            }
            x = x + 1;
        }
        y = y + 1;
    }
    proof {
        assert forall|i: int, j: int, c: int|
            out@.in_bounds(i, j) && 0 <= c < 4 implies out@.chan(i, j, c) as int == darkened_chan(
            src@,
            p as int,
            sa as int,
            i,
            j,
            c,
        ) by {
            if !(c == 3 && p <= j < p + h) {
                lemma_darkened_zero(src@, p as int, sa as int, i, j, c);
            }
        }
    }
    out
}

/// Sums the `2 * b + 1` samples of the row window centred on `(x, y)`;
/// samples beyond the raster read as zero.
#[verifier::loop_isolation(false)]
fn hwindow_sum(src: &Raster, x: usize, y: usize, c: usize, b: u64) -> (s: u64)
    requires
        src@.wf(),
        x < src@.width,
        y < src@.height,
        c < 4,
        b <= 0x2_0000_0000,
    ensures
        s == sum_over(
            |k: int| src@.sample(k, y as int, c as int),
            x - b,
            x + b + 1,
        ),
        s <= 255 * (2 * b + 1),
{
    let ghost f = |k: int| src@.sample(k, y as int, c as int);
    proof {
        src.lemma_fits();
        assert(src@.width * 1 <= src@.width * src@.height) by (nonlinear_arith)
            requires
                src@.width >= 0,
                src@.height >= 1,
        ;
    }
    let w64 = src.width() as u64;
    let n: u64 = 2 * b + 1;
    let mut acc: u64 = 0;
    let mut k: u64 = 0;
    while k < n
        invariant
            k <= n,
            acc == sum_over(f, x - b, x - b + k),
            acc <= 255 * k,
        decreases n - k,
    {
        let pos = x as u64 + k;
        let v: u64 = if pos >= b {
            let q = pos - b;
            if q < w64 {
                src.get(q as usize, y, c) as u64
            } else {
                0
            }
        } else {
            0
        };
        proof {
            lemma_sum_extend(f, x - b, x - b + k);
            assert(f(x - b + k) == v);
        }
        acc = acc + v;
        k = k + 1;
    }
    acc
}

/// Sums the `2 * b + 1` samples of the column window centred on `(x, y)`;
/// samples beyond the raster read as zero.
#[verifier::loop_isolation(false)]
fn vwindow_sum(src: &Raster, x: usize, y: usize, c: usize, b: u64) -> (s: u64)
    requires
        src@.wf(),
        x < src@.width,
        y < src@.height,
        c < 4,
        b <= 0x2_0000_0000,
    ensures
        s == sum_over(
            |k: int| src@.sample(x as int, k, c as int),
            y - b,
            y + b + 1,
        ),
        s <= 255 * (2 * b + 1),
{
    let ghost f = |k: int| src@.sample(x as int, k, c as int);
    proof {
        src.lemma_fits();
        assert(src@.height * 1 <= src@.height * src@.width) by (nonlinear_arith)
            requires
                src@.height >= 0,
                src@.width >= 1,
        ;
    }
    let h64 = src.height() as u64;
    let n: u64 = 2 * b + 1;
    let mut acc: u64 = 0;
    let mut k: u64 = 0;
    while k < n
        invariant
            k <= n,
            acc == sum_over(f, y - b, y - b + k),
            acc <= 255 * k,
        decreases n - k,
    {
        let pos = y as u64 + k;
        let v: u64 = if pos >= b {
            let q = pos - b;
            if q < h64 {
                src.get(x, q as usize, c) as u64
            } else {
                0
            }
        } else {
            0
        };
        proof {
            lemma_sum_extend(f, y - b, y - b + k);
            assert(f(y - b + k) == v);
        }
        acc = acc + v;
        k = k + 1;
    }
    acc
}

/// One horizontal pass of the centred box blur: each channel becomes the
/// mean of its `2 * b + 1` wide row window, rounded down, samples beyond
/// the raster reading as zero.
#[verifier::loop_isolation(false)]
pub fn box_blur_h(src: &Raster, b: u64) -> (out: Raster)
    requires
        src@.wf(),
        b <= 0x2_0000_0000,
    ensures
        out@.wf(),
        out@.width == src@.width,
        out@.height == src@.height,
        forall|x: int, y: int, c: int|
            out@.in_bounds(x, y) && 0 <= c < 4 ==> out@.chan(x, y, c) as int == sum_over(
                |k: int| src@.sample(k, y, c),
                x - b,
                x + b + 1,
            ) / (2 * b + 1),
{
    let w = src.width();
    let h = src.height();
    proof {
        src.lemma_fits();
    }
    let n: u64 = 2 * b + 1;
    let mut out = Raster::new(w, h);
    let mut y: usize = 0;
    while y < h
        invariant
            y <= h,
            out@.wf(),
            out@.width == w,
            out@.height == h,
            forall|i: int, j: int, d: int|
                out@.in_bounds(i, j) && 0 <= d < 4 && j < y ==> out@.chan(i, j, d) as int
                    == sum_over(|k: int| src@.sample(k, j, d), i - b, i + b + 1) / (2 * b + 1),
        decreases h - y,
    {
        let mut x: usize = 0;
        while x < w
            invariant
                x <= w,
                y < h,
                out@.wf(),
                out@.width == w,
                out@.height == h,
                forall|i: int, j: int, d: int|
                    out@.in_bounds(i, j) && 0 <= d < 4 && (j < y || (j == y && i < x))
                        ==> out@.chan(i, j, d) as int == sum_over(
                        |k: int| src@.sample(k, j, d),
                        i - b,
                        i + b + 1,
                    ) / (2 * b + 1),
            decreases w - x,
        {
            let mut c: usize = 0;
            while c < 4
                invariant
                    c <= 4,
                    x < w,
                    y < h,
                    out@.wf(),
                    out@.width == w,
                    out@.height == h,
                    forall|i: int, j: int, d: int|
                        out@.in_bounds(i, j) && 0 <= d < 4 && (j < y || (j == y && i < x) || (j == y
                            && i == x && d < c)) ==> out@.chan(i, j, d) as int == sum_over(
                            |k: int| src@.sample(k, j, d),
                            i - b,
                            i + b + 1,
                        ) / (2 * b + 1),
                decreases 4 - c,
            {
                let s = hwindow_sum(src, x, y, c, b);
                proof {
                    lemma_div_is_ordered(s as int, 255 * (2 * b + 1), n as int);
                    lemma_div_multiples_vanish(255, n as int);
                }
                let v = (s / n) as u8;
                out.set(x, y, c, v);
                c = c + 1;
            }
            x = x + 1;
        }
        y = y + 1;
    }
    out
}

/// One vertical pass of the centred box blur, the mirror of `box_blur_h`.
#[verifier::loop_isolation(false)]
pub fn box_blur_v(src: &Raster, b: u64) -> (out: Raster)
    requires
        src@.wf(),
        b <= 0x2_0000_0000,
    ensures
        out@.wf(),
        out@.width == src@.width,
        out@.height == src@.height,
        forall|x: int, y: int, c: int|
            out@.in_bounds(x, y) && 0 <= c < 4 ==> out@.chan(x, y, c) as int == sum_over(
                |k: int| src@.sample(x, k, c),
                y - b,
                y + b + 1,
            ) / (2 * b + 1),
{
    let w = src.width();
    let h = src.height();
    proof {
        src.lemma_fits();
    }
    let n: u64 = 2 * b + 1;
    let mut out = Raster::new(w, h);
    let mut y: usize = 0;
    while y < h
        invariant
            y <= h,
            out@.wf(),
            out@.width == w,
            out@.height == h,
            forall|i: int, j: int, d: int|
                out@.in_bounds(i, j) && 0 <= d < 4 && j < y ==> out@.chan(i, j, d) as int
                    == sum_over(|k: int| src@.sample(i, k, d), j - b, j + b + 1) / (2 * b + 1),
        decreases h - y,
    {
        let mut x: usize = 0;
        while x < w
            invariant
                x <= w,
                y < h,
                out@.wf(),
                out@.width == w,
                out@.height == h,
                forall|i: int, j: int, d: int|
                    out@.in_bounds(i, j) && 0 <= d < 4 && (j < y || (j == y && i < x))
                        ==> out@.chan(i, j, d) as int == sum_over(
                        |k: int| src@.sample(i, k, d),
                        j - b,
                        j + b + 1,
                    ) / (2 * b + 1),
            decreases w - x,
        {
            let mut c: usize = 0;
            while c < 4
                invariant
                    c <= 4,
                    x < w,
                    y < h,
                    out@.wf(),
                    out@.width == w,
                    out@.height == h,
                    forall|i: int, j: int, d: int|
                        out@.in_bounds(i, j) && 0 <= d < 4 && (j < y || (j == y && i < x) || (j == y
                            && i == x && d < c)) ==> out@.chan(i, j, d) as int == sum_over(
                            |k: int| src@.sample(i, k, d),
                            j - b,
                            j + b + 1,
                        ) / (2 * b + 1),
                decreases 4 - c,
            {
                let s = vwindow_sum(src, x, y, c, b);
                proof {
                    lemma_div_is_ordered(s as int, 255 * (2 * b + 1), n as int);
                    lemma_div_multiples_vanish(255, n as int);
                }
                let v = (s / n) as u8;
                out.set(x, y, c, v);
                c = c + 1;
            }
            x = x + 1;
        }
        y = y + 1;
    }
    out
}

/// The cleanup pass: every channel of a pixel with nonzero alpha is
/// scaled by the square root of that alpha over 255; pixels with zero
/// alpha are cleared. Softens the rolloff at the blurred edge.
#[verifier::loop_isolation(false)]
pub fn cleanup(src: &Raster) -> (out: Raster)
    requires
        src@.wf(),
    ensures
        out@.wf(),
        out@.width == src@.width,
        out@.height == src@.height,
        forall|x: int, y: int, c: int|
            out@.in_bounds(x, y) && 0 <= c < 4 ==> out@.chan(x, y, c) as int == cleaned(
                src@.chan(x, y, c) as int,
                src@.chan(x, y, 3) as int,
            ),
{
    let w = src.width();
    let h = src.height();
    proof {
        src.lemma_fits();
    }
    let mut out = Raster::new(w, h);
    let mut y: usize = 0;
    while y < h
        invariant
            y <= h,
            out@.wf(),
            out@.width == w,
            out@.height == h,
            forall|i: int, j: int, d: int|
                out@.in_bounds(i, j) && 0 <= d < 4 ==> out@.chan(i, j, d) as int == (if j < y {
                    cleaned(src@.chan(i, j, d) as int, src@.chan(i, j, 3) as int)
                } else {
                    0
                }),
        decreases h - y,
    {
        let mut x: usize = 0;
        while x < w
            invariant
                x <= w,
                y < h,
                out@.wf(),
                out@.width == w,
                out@.height == h,
                forall|i: int, j: int, d: int|
                    out@.in_bounds(i, j) && 0 <= d < 4 ==> out@.chan(i, j, d) as int == (if j < y
                        || (j == y && i < x) {
                        cleaned(src@.chan(i, j, d) as int, src@.chan(i, j, 3) as int)
                    } else {
                        0
                    }),
            decreases w - x,
        {
            let a = src.get(x, y, 3);
            if a > 0 {
                proof {
                    lemma_isqrt_bounds(255 * (a as nat));
                    assert(isqrt_spec(255 * (a as nat)) <= 255) by (nonlinear_arith)
                        requires
                            isqrt_spec(255 * (a as nat)) * isqrt_spec(255 * (a as nat)) <= 255 * (
                            a as nat),
                            a as nat <= 255,
                    ;
                }
                let factor = isqrt(255 * (a as u128));
                let mut c: usize = 0;
                while c < 4
                    invariant
                        c <= 4,
                        x < w,
                        y < h,
                        a == src@.chan(x as int, y as int, 3),
                        a > 0,
                        factor == isqrt_spec((255 * (a as int)) as nat),
                        factor <= 255,
                        out@.wf(),
                        out@.width == w,
                        out@.height == h,
                        forall|i: int, j: int, d: int|
                            out@.in_bounds(i, j) && 0 <= d < 4 ==> out@.chan(i, j, d) as int == (
                            if j < y || (j == y && i < x) || (j == y && i == x && d < c) {
                                cleaned(src@.chan(i, j, d) as int, src@.chan(i, j, 3) as int)
                            } else {
                                0
                            }),
                    decreases 4 - c,
                {
                    let v = src.get(x, y, c);
                    proof {
                        assert((v as int) * (factor as int) <= 255 * 255) by (nonlinear_arith)
                            requires
                                0 <= v as int <= 255,
                                0 <= factor as int <= 255,
                        ;
                        lemma_div_is_ordered((v as int) * (factor as int), 255int * 255, 255);
                    }
                    let nv = ((v as u128) * factor / 255) as u8;
                    out.set(x, y, c, nv);
                    c = c + 1;
                }
            } else {
                proof {
                    assert forall|d: int| 0 <= d < 4 implies out@.chan(x as int, y as int, d)
                        as int == cleaned(
                        src@.chan(x as int, y as int, d) as int,
                        src@.chan(x as int, y as int, 3) as int,
                    ) by {}
                }
            }
            x = x + 1;
        }
        y = y + 1;
    }
    out
}

/// Builds the shadow layer of `src`: a canvas grown by
/// `spread + 2 * blur_radius` on every side holds the source's alpha
/// silhouette painted black and scaled by `alpha / 255`, box-blurred once
/// along each axis with radius `blur_radius + spread / 2`; when that
/// radius is nonzero, the cleanup pass follows.
pub fn synthesize(src: &Raster, blur_radius: u32, spread: u32, alpha: u8) -> (out: Raster)
    requires
        src@.wf(),
        src@.width + 2 * shadow_padding(spread as int, blur_radius as int) <= usize::MAX,
        src@.height + 2 * shadow_padding(spread as int, blur_radius as int) <= usize::MAX,
        (src@.width + 2 * shadow_padding(spread as int, blur_radius as int)) * (src@.height + 2
            * shadow_padding(spread as int, blur_radius as int)) * 4 <= usize::MAX,
    ensures
        out@.wf(),
        out@.width == src@.width + 2 * shadow_padding(spread as int, blur_radius as int),
        out@.height == src@.height + 2 * shadow_padding(spread as int, blur_radius as int),
        forall|x: int, y: int, c: int|
            out@.in_bounds(x, y) && 0 <= c < 4 ==> out@.chan(x, y, c) as int == shadow_chan(
                src@,
                blur_radius as int,
                spread as int,
                alpha as int,
                x,
                y,
                c,
            ),
{
    let ghost pi = shadow_padding(spread as int, blur_radius as int);
    let ghost sa = alpha as int;
    let p64: u64 = spread as u64 + 2 * (blur_radius as u64);
    let p = p64 as usize;
    let d = darken_pad(src, p, alpha);
    proof {
        lemma_darkened_sample(src@, d@, pi, sa);
    }
    let ab: u64 = blur_radius as u64 + (spread as u64) / 2;
    let ghost bi = ab as int;
    proof {
        assert(bi == adjusted_blur(spread as int, blur_radius as int));
    }
    let h1 = box_blur_h(&d, ab);
    proof {
        assert forall|x: int, y: int, c: int|
            h1@.in_bounds(x, y) && 0 <= c < 4 implies h1@.chan(x, y, c) as int == hblur_chan(
            src@,
            pi,
            sa,
            bi,
            x,
            y,
            c,
        ) by {
            lemma_sum_congruence(
                |k: int| d@.sample(k, y, c),
                |k: int| darkened_chan(src@, pi, sa, k, y, c),
                x - bi,
                x + bi + 1,
            );
        }
    }
    let v1 = box_blur_v(&h1, ab);
    proof {
        assert forall|x: int, y: int, c: int|
            v1@.in_bounds(x, y) && 0 <= c < 4 implies v1@.chan(x, y, c) as int == vblur_chan(
            src@,
            pi,
            sa,
            bi,
            x,
            y,
            c,
        ) by {
            let fh = |k: int| h1@.sample(x, k, c);
            let gh = |k: int| hblur_chan(src@, pi, sa, bi, x, k, c);
            assert forall|k: int| y - bi <= k < y + bi + 1 implies #[trigger] fh(k) == gh(k) by {
                if !h1@.in_bounds(x, k) {
                    lemma_hblur_row_zero(src@, pi, sa, bi, x, k, c);
                }
                assert(fh(k) == h1@.sample(x, k, c));
                assert(gh(k) == hblur_chan(src@, pi, sa, bi, x, k, c));
            }
            lemma_sum_congruence(fh, gh, y - bi, y + bi + 1);
        }
    }
    if ab > 0 {
        let out = cleanup(&v1);
        proof {
            assert forall|x: int, y: int, c: int|
                out@.in_bounds(x, y) && 0 <= c < 4 implies out@.chan(x, y, c) as int
                == shadow_chan(src@, blur_radius as int, spread as int, sa, x, y, c) by {
                assert(v1@.chan(x, y, c) as int == vblur_chan(src@, pi, sa, bi, x, y, c));
                assert(v1@.chan(x, y, 3) as int == vblur_chan(src@, pi, sa, bi, x, y, 3));
            }
        }
        out
    } else {
        v1
    }
}

/// A positive spread or blur radius strictly grows the shadow canvas in
/// both dimensions.
pub proof fn lemma_shadow_grows(w: int, h: int, spread: int, blur: int)
    requires
        spread >= 0,
        blur >= 0,
        spread > 0 || blur > 0,
    ensures
        w + 2 * shadow_padding(spread, blur) > w,
        h + 2 * shadow_padding(spread, blur) > h,
{
}

/// Every pixel of a synthesized shadow is black: its RGB channels are zero.
pub proof fn lemma_shadow_black(img: Img, blur: int, spread: int, sa: int, x: int, y: int, c: int)
    requires
        blur >= 0,
        spread >= 0,
        0 <= c < 3,
    ensures
        shadow_chan(img, blur, spread, sa, x, y, c) == 0,
{
    let p = shadow_padding(spread, blur);
    let b = adjusted_blur(spread, blur);
    let g = |k: int| hblur_chan(img, p, sa, b, x, k, c);
    assert forall|k: int| y - b <= k < y + b + 1 implies 0 <= #[trigger] g(k) <= 0 by {
        let f = |j: int| darkened_chan(img, p, sa, j, k, c);
        assert forall|j: int| x - b <= j < x + b + 1 implies #[trigger] f(j) == 0 by {
            lemma_darkened_zero(img, p, sa, j, k, c);
        }
        lemma_sum_bounds(f, x - b, x + b + 1, 0, 0);
        lemma_div_basics(2 * b + 1);
        assert(g(k) == hblur_chan(img, p, sa, b, x, k, c));
    }
    lemma_sum_bounds(g, y - b, y + b + 1, 0, 0);
    lemma_div_basics(2 * b + 1);
    assert(vblur_chan(img, p, sa, b, x, y, c) == 0);
    if b > 0 {
        let a = vblur_chan(img, p, sa, b, x, y, 3);
        if a > 0 {
            assert(0int * isqrt_spec((255 * a) as nat) == 0) by (nonlinear_arith);
            lemma_div_basics(255);
        }
    }
}

/// With zero spread and zero blur radius the shadow is the bare scaled
/// silhouette: its alpha at `(x, y)` is exactly the source alpha there
/// times `sa`, divided by 255.
pub proof fn lemma_shadow_plain_silhouette(img: Img, sa: int, x: int, y: int)
    ensures
        shadow_chan(img, 0, 0, sa, x, y, 3) == img.sample(x, y, 3) * sa / 255,
{
    let f = |k: int| darkened_chan(img, 0, sa, k, y, 3);
    lemma_sum_extend(f, x, x);
    assert(sum_over(f, x, x + 1) == f(x));
    lemma_div_basics(f(x));
    assert(hblur_chan(img, 0, sa, 0, x, y, 3) == darkened_chan(img, 0, sa, x, y, 3));
    let g = |k: int| hblur_chan(img, 0, sa, 0, x, k, 3);
    lemma_sum_extend(g, y, y);
    assert(sum_over(g, y, y + 1) == g(y));
    lemma_div_basics(g(y));
    assert(vblur_chan(img, 0, sa, 0, x, y, 3) == darkened_chan(img, 0, sa, x, y, 3));
}

} // verus!
