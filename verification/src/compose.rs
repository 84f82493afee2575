use crate::raster::{Img, Raster};
use vstd::arithmetic::div_mod::{lemma_div_basics, lemma_div_is_ordered, lemma_div_multiples_vanish};
use vstd::prelude::*;

verus! {

/// Alpha-over blending of an RGB channel: the background weighted by what
/// the foreground lets through, plus the foreground weighted by its own
/// alpha, rounded down.
pub open spec fn blend_chan(dst: int, srcv: int, sa: int) -> int {
    (dst * (255 - sa) + srcv * sa) / 255
}

/// Alpha-over blending of the alpha channel itself: the foreground alpha
/// plus the background alpha scaled by what the foreground lets through.
pub open spec fn blend_alpha(dst: int, sa: int) -> int {
    sa + dst * (255 - sa) / 255
}

/// Blending channel values in range yields a value in range.
pub proof fn lemma_blend_bounds(dst: int, srcv: int, sa: int)
    requires
        0 <= dst <= 255,
        0 <= srcv <= 255,
        0 <= sa <= 255,
    ensures
        0 <= blend_chan(dst, srcv, sa) <= 255,
        0 <= blend_alpha(dst, sa) <= 255,
{
    assert(0 <= dst * (255 - sa) + srcv * sa && dst * (255 - sa) + srcv * sa <= 255 * 255)
        by (nonlinear_arith)
        requires
            0 <= dst <= 255,
            0 <= srcv <= 255,
            0 <= sa <= 255,
    ;
    lemma_div_is_ordered(0, dst * (255 - sa) + srcv * sa, 255);
    lemma_div_basics(255);
    lemma_div_is_ordered(dst * (255 - sa) + srcv * sa, 255int * 255, 255);
    lemma_div_multiples_vanish(255, 255);
    assert(0 <= dst * (255 - sa) && dst * (255 - sa) <= 255 * (255 - sa)) by (nonlinear_arith)
        requires
            0 <= dst <= 255,
            0 <= sa <= 255,
    ;
    lemma_div_is_ordered(0, dst * (255 - sa), 255);
    lemma_div_is_ordered(dst * (255 - sa), 255 * (255 - sa), 255);
    lemma_div_multiples_vanish(255 - sa, 255);
}

/// A fully opaque foreground replaces the background outright.
pub proof fn lemma_opaque_over(dst: int, srcv: int)
    requires
        0 <= dst <= 255,
        0 <= srcv <= 255,
    ensures
        blend_chan(dst, srcv, 255) == srcv,
        blend_alpha(dst, 255) == 255,
{
    assert(dst * (255 - 255) == 0 && srcv * 255 == 255 * srcv) by (nonlinear_arith);
    lemma_div_multiples_vanish(srcv, 255);
    lemma_div_basics(255);
}

/// The value of a background channel `bg` once the pixel `(lx, ly)` of
/// `layer` is drawn over it; positions outside the layer leave it alone.
pub open spec fn over_chan(bg: int, layer: Img, lx: int, ly: int, c: int) -> int {
    if layer.in_bounds(lx, ly) {
        if c == 3 {
            blend_alpha(bg, layer.chan(lx, ly, 3) as int)
        } else {
            blend_chan(bg, layer.chan(lx, ly, c) as int, layer.chan(lx, ly, 3) as int)
        }
    } else {
        bg
    }
}

/// Where the shadow raster's top-left corner sits on the canvas: pushed
/// right or down by a positive offset, at the origin otherwise.
pub open spec fn shadow_pos(o: int) -> int {
    if o >= 0 {
        o
    } else {
        0
    }
}

/// Where the rounded source's top-left corner sits on the canvas: the
/// shadow padding in from the origin, pushed further by a negative offset.
pub open spec fn source_pos(o: int, p: int) -> int {
    if o >= 0 {
        p
    } else {
        p - o
    }
}

/// What `compose` returns at channel `c` of `(x, y)`: over a transparent
/// black canvas, first the shadow raster, then the rounded source, each
/// at its place.
pub open spec fn composed_chan(
    rd: Img,
    sh: Img,
    ox: int,
    oy: int,
    p: int,
    x: int,
    y: int,
    c: int,
) -> int {
    let bg = over_chan(0, sh, x - shadow_pos(ox), y - shadow_pos(oy), c);
    over_chan(bg, rd, x - source_pos(ox, p), y - source_pos(oy, p), c)
}

/// Draws `layer` over `canvas` with its top-left corner at `(at_x, at_y)`:
/// standard alpha-over compositing, the layer in front. Every pixel not
/// under the layer is kept.
#[verifier::loop_isolation(false)]
pub fn overlay_at(canvas: &mut Raster, layer: &Raster, at_x: usize, at_y: usize)
    requires
        old(canvas)@.wf(),
        layer@.wf(),
        at_x + layer@.width <= old(canvas)@.width,
        at_y + layer@.height <= old(canvas)@.height,
    ensures
        final(canvas)@.wf(),
        final(canvas)@.width == old(canvas)@.width,
        final(canvas)@.height == old(canvas)@.height,
        forall|x: int, y: int, c: int|
            final(canvas)@.in_bounds(x, y) && 0 <= c < 4 ==> final(canvas)@.chan(x, y, c) as int
                == over_chan(
                old(canvas)@.chan(x, y, c) as int,
                layer@,
                x - at_x,
                y - at_y,
                c,
            ),
{
    let lw = layer.width();
    let lh = layer.height();
    let _cw = canvas.width();
    let _ch = canvas.height();
    let mut ly: usize = 0;
    while ly < lh
        invariant
            ly <= lh,
            canvas@.wf(),
            canvas@.width == old(canvas)@.width,
            canvas@.height == old(canvas)@.height,
            forall|x: int, y: int, c: int|
                canvas@.in_bounds(x, y) && 0 <= c < 4 ==> canvas@.chan(x, y, c) as int == (if y
                    - at_y < ly {
                    over_chan(old(canvas)@.chan(x, y, c) as int, layer@, x - at_x, y - at_y, c)
                } else {
                    old(canvas)@.chan(x, y, c) as int
                }),
        decreases lh - ly,
    {
        let mut lx: usize = 0;
        while lx < lw
            invariant
                lx <= lw,
                ly < lh,
                canvas@.wf(),
                canvas@.width == old(canvas)@.width,
                canvas@.height == old(canvas)@.height,
                forall|x: int, y: int, c: int|
                    canvas@.in_bounds(x, y) && 0 <= c < 4 ==> canvas@.chan(x, y, c) as int == (
                    if y - at_y < ly || (y - at_y == ly && x - at_x < lx) {
                        over_chan(old(canvas)@.chan(x, y, c) as int, layer@, x - at_x, y - at_y, c)
                    } else {
                        old(canvas)@.chan(x, y, c) as int
                    }),
            decreases lw - lx,
        {
            let x = at_x + lx;
            let y = at_y + ly;
            let la = layer.get(lx, ly, 3);
            let mut c: usize = 0;
            while c < 3
                invariant
                    c <= 3,
                    lx < lw,
                    ly < lh,
                    x == at_x + lx,
                    y == at_y + ly,
                    la == layer@.chan(lx as int, ly as int, 3),
                    canvas@.wf(),
                    canvas@.width == old(canvas)@.width,
                    canvas@.height == old(canvas)@.height,
                    forall|i: int, j: int, d: int|
                        canvas@.in_bounds(i, j) && 0 <= d < 4 ==> canvas@.chan(i, j, d) as int == (
                        if j - at_y < ly || (j - at_y == ly && i - at_x < lx) || (j == y && i == x
                            && d < c) {
                            over_chan(
                                old(canvas)@.chan(i, j, d) as int,
                                layer@,
                                i - at_x,
                                j - at_y,
                                d,
                            )
                        } else {
                            old(canvas)@.chan(i, j, d) as int
                        }),
                decreases 3 - c,
            {
                let dv = canvas.get(x, y, c);
                let sv = layer.get(lx, ly, c);
                proof {
                    lemma_blend_bounds(dv as int, sv as int, la as int);
                }
                let nv = (((dv as u64) * (255 - la as u64) + (sv as u64) * (la as u64)) / 255)
                    as u8;
                canvas.set(x, y, c, nv);
                c = c + 1;
            }
            let da = canvas.get(x, y, 3);
            proof {
                lemma_blend_bounds(da as int, 0, la as int);
            }
            let na = ((la as u64) + (da as u64) * (255 - la as u64) / 255) as u8;
            canvas.set(x, y, 3, na);
            lx = lx + 1;
        }
        ly = ly + 1;
    }
}

/// Composes the rounded raster over its shadow layer. The canvas measures
/// the rounded raster plus the absolute offset plus twice the padding in
/// each dimension; the layer the offset points away from is pushed by the
/// absolute offset, so both layers always lie fully inside the canvas.
pub fn compose(
    rounded: &Raster,
    shadow: &Raster,
    offset_x: i32,
    offset_y: i32,
    padding: usize,
) -> (out: Raster)
    requires
        rounded@.wf(),
        shadow@.wf(),
        shadow@.width == rounded@.width + 2 * padding,
        shadow@.height == rounded@.height + 2 * padding,
        rounded@.width + vstd::math::abs(offset_x as int) + 2 * padding <= usize::MAX,
        rounded@.height + vstd::math::abs(offset_y as int) + 2 * padding <= usize::MAX,
        (rounded@.width + vstd::math::abs(offset_x as int) + 2 * padding) * (rounded@.height
            + vstd::math::abs(offset_y as int) + 2 * padding) * 4 <= usize::MAX,
    ensures
        out@.wf(),
        out@.width == rounded@.width + vstd::math::abs(offset_x as int) + 2 * padding,
        out@.height == rounded@.height + vstd::math::abs(offset_y as int) + 2 * padding,
        forall|x: int, y: int, c: int|
            out@.in_bounds(x, y) && 0 <= c < 4 ==> out@.chan(x, y, c) as int == composed_chan(
                rounded@,
                shadow@,
                offset_x as int,
                offset_y as int,
                padding as int,
                x,
                y,
                c,
            ),
{
    let w = rounded.width();
    let h = rounded.height();
    let ax: usize = if offset_x >= 0 {
        offset_x as usize
    } else {
        (-(offset_x as i64)) as usize
    };
    let ay: usize = if offset_y >= 0 {
        offset_y as usize
    } else {
        (-(offset_y as i64)) as usize
    };
    let cw = w + ax + 2 * padding;
    let ch = h + ay + 2 * padding;
    let sx: usize = if offset_x >= 0 {
        offset_x as usize
    } else {
        0
    };
    let sy: usize = if offset_y >= 0 {
        offset_y as usize
    } else {
        0
    };
    let rx: usize = if offset_x >= 0 {
        padding
    } else {
        padding + ax
    };
    let ry: usize = if offset_y >= 0 {
        padding
    } else {
        padding + ay
    };
    let mut out = Raster::new(cw, ch);
    let ghost blank = out@;
    overlay_at(&mut out, shadow, sx, sy);
    let ghost after_shadow = out@;
    overlay_at(&mut out, rounded, rx, ry);
    proof {
        let oxi = offset_x as int;
        let oyi = offset_y as int;
        let pi = padding as int;
        assert forall|x: int, y: int, c: int|
            out@.in_bounds(x, y) && 0 <= c < 4 implies out@.chan(x, y, c) as int == composed_chan(
            rounded@,
            shadow@,
            oxi,
            oyi,
            pi,
            x,
            y,
            c,
        ) by {
            assert(blank.chan(x, y, c) == 0);
            assert(after_shadow.chan(x, y, c) as int == over_chan(
                0,
                shadow@,
                x - shadow_pos(oxi),
                y - shadow_pos(oyi),
                c,
            ));
            assert(out@.chan(x, y, c) as int == over_chan(
                after_shadow.chan(x, y, c) as int,
                rounded@,
                x - source_pos(oxi, pi),
                y - source_pos(oyi, pi),
                c,
            ));
        }
    }
    out
}

/// The composed canvas always holds both layers whole: for any signed
/// offsets, the shadow raster and the rounded source lie entirely within
/// a canvas of the composed dimensions.
pub proof fn lemma_compose_fits(w: int, h: int, ox: int, oy: int, p: int)
    requires
        w >= 0,
        h >= 0,
        p >= 0,
    ensures
        0 <= shadow_pos(ox) && shadow_pos(ox) + (w + 2 * p) <= w + vstd::math::abs(ox) + 2 * p,
        0 <= shadow_pos(oy) && shadow_pos(oy) + (h + 2 * p) <= h + vstd::math::abs(oy) + 2 * p,
        0 <= source_pos(ox, p) && source_pos(ox, p) + w <= w + vstd::math::abs(ox) + 2 * p,
        0 <= source_pos(oy, p) && source_pos(oy, p) + h <= h + vstd::math::abs(oy) + 2 * p,
{
}

/// With zero offsets and zero padding, every pixel at which the rounded
/// source is fully opaque composes to exactly the source's own pixel.
pub proof fn lemma_compose_opaque_source(rd: Img, sh: Img, x: int, y: int, c: int)
    requires
        rd.in_bounds(x, y),
        0 <= c < 4,
        rd.chan(x, y, 3) == 255,
    ensures
        composed_chan(rd, sh, 0, 0, 0, x, y, c) == rd.chan(x, y, c),
{
    let bg = over_chan(0, sh, x, y, c);
    if sh.in_bounds(x, y) {
        if c == 3 {
            lemma_blend_bounds(0, 0, sh.chan(x, y, 3) as int);
        } else {
            lemma_blend_bounds(0, sh.chan(x, y, c) as int, sh.chan(x, y, 3) as int);
        }
    }
    lemma_opaque_over(bg, rd.chan(x, y, c) as int);
}

} // verus!
