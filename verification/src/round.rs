use crate::math::{isqrt, isqrt_spec};
use crate::raster::{Img, Raster};
use vstd::prelude::*;

verus! {

/// The corner radius actually used: the requested radius, clamped to half
/// the shorter dimension so the four corner squares never overlap.
pub open spec fn eff_radius(w: int, h: int, radius: int) -> int {
    let half = (if w <= h {
        w
    } else {
        h
    }) / 2;
    if radius <= half {
        radius
    } else {
        half
    }
}

/// The squared distance from `(x, y)` to the inner circle centre of its
/// corner square, or `-1` when `(x, y)` lies in no corner square. The
/// centres sit `r` pixels in from the left and top edges and `r + 1`
/// pixels in from the right and bottom edges.
pub open spec fn corner_dist_sq(w: int, h: int, r: int, x: int, y: int) -> int {
    let dx = if x < r {
        r - x
    } else if x >= w - r {
        x - (w - r - 1)
    } else {
        0
    };
    let dy = if y < r {
        r - y
    } else if y >= h - r {
        y - (h - r - 1)
    } else {
        0
    };
    if dx > 0 && dy > 0 {
        dx * dx + dy * dy
    } else {
        -1
    }
}

/// One pixel of feathering at the rounding boundary: the alpha falls by
/// 255 per unit of distance beyond the quarter circle. The distance is
/// scaled by 255 and taken by integer square root, so the value is
/// `255 * (r + 1)` minus 255 times the corner distance, rounded down,
/// clamped to `0 ..= 255`.
pub open spec fn feather(r: int, s: int) -> int {
    let d255 = isqrt_spec((65025 * s) as nat);
    let v = 255 * (r + 1) - d255;
    if v < 0 {
        0
    } else if v > 255 {
        255
    } else {
        v
    }
}

/// The alpha a pixel with original alpha `a` gets at squared corner
/// distance `s`: kept inside the quarter disc (and outside the corner
/// squares), feathered but never raised beyond it.
pub open spec fn rounded_alpha(r: int, s: int, a: int) -> int {
    if s < 0 || s <= r * r {
        a
    } else {
        let f = feather(r, s);
        if f <= a {
            f
        } else {
            a
        }
    }
}

/// What `round` returns at channel `c` of pixel `(x, y)`.
pub open spec fn round_chan(img: Img, radius: int, x: int, y: int, c: int) -> int {
    let w = img.width as int;
    let h = img.height as int;
    let r = eff_radius(w, h, radius);
    if c == 3 {
        rounded_alpha(r, corner_dist_sq(w, h, r, x, y), img.chan(x, y, 3) as int)
    } else {
        img.chan(x, y, c) as int
    }
}

/// Rounds the corners of `src`: RGB channels are copied unchanged; the
/// alpha of a pixel in a corner square is kept inside the inscribed
/// quarter circle, feathered over one pixel at its boundary, and cleared
/// beyond that. The radius is clamped to half the shorter dimension.
pub fn round(src: &Raster, radius: u32) -> (out: Raster)
    requires
        src@.wf(),
    ensures
        out@.wf(),
        out@.width == src@.width,
        out@.height == src@.height,
        forall|x: int, y: int, c: int|
            out@.in_bounds(x, y) && 0 <= c < 4 ==> out@.chan(x, y, c) == round_chan(
                src@,
                radius as int,
                x,
                y,
                c,
            ),
{
    let w = src.width();
    let h = src.height();
    proof {
        src.lemma_fits();
    }
    let half = (if w <= h {
        w
    } else {
        h
    }) / 2;
    let r: usize = if radius as usize <= half {
        radius as usize
    } else {
        half
    };
    proof {
        let m = if w <= h {
            w as int
        } else {
            h as int
        };
        assert(m * m <= w as int * h as int) by (nonlinear_arith)
            requires
                0 <= m,
                m <= w as int,
                m <= h as int,
        ;
        assert(4 * (r as int * r as int) <= m * m) by (nonlinear_arith)
            requires
                0 <= r as int,
                2 * (r as int) <= m,
        ;
    }
    let ghost rr = r as int;
    assert(rr * rr <= 0x4000000000000000);
    let mut out = Raster::new(w, h);
    let mut y: usize = 0;
    while y < h
        invariant
            y <= h,
            src@.wf(),
            src@.width == w,
            src@.height == h,
            out@.wf(),
            out@.width == w,
            out@.height == h,
            rr == eff_radius(w as int, h as int, radius as int),
            rr * rr <= 0x4000000000000000,
            r == rr,
            r <= w,
            r <= h,
            forall|i: int, j: int, c: int|
                out@.in_bounds(i, j) && j < y && 0 <= c < 4 ==> out@.chan(i, j, c) == round_chan(
                    src@,
                    radius as int,
                    i,
                    j,
                    c,
                ),
        decreases h - y,
    {
        let mut x: usize = 0;
        while x < w
            invariant
                x <= w,
                y < h,
                src@.wf(),
                src@.width == w,
                src@.height == h,
                out@.wf(),
                out@.width == w,
                out@.height == h,
                rr == eff_radius(w as int, h as int, radius as int),
                rr * rr <= 0x4000000000000000,
                r == rr,
                r <= w,
                r <= h,
                forall|i: int, j: int, c: int|
                    out@.in_bounds(i, j) && (j < y || (j == y && i < x)) && 0 <= c < 4
                        ==> out@.chan(i, j, c) == round_chan(src@, radius as int, i, j, c),
            decreases w - x,
        {
            out.set(x, y, 0, src.get(x, y, 0));
            out.set(x, y, 1, src.get(x, y, 1));
            out.set(x, y, 2, src.get(x, y, 2));
            let a = src.get(x, y, 3);
            let dx: usize = if x < r {
                r - x
            } else if x >= w - r {
                x - (w - r - 1)
            } else {
                0
            };
            let dy: usize = if y < r {
                r - y
            } else if y >= h - r {
                y - (h - r - 1)
            } else {
                0
            };
            let new_a: u8 = if dx > 0 && dy > 0 {
                proof {
                    assert(dx as int * dx as int <= rr * rr && dy as int * dy as int <= rr * rr)
                        by (nonlinear_arith)
                        requires
                            0 <= dx as int <= rr,
                            0 <= dy as int <= rr,
                    ;
                }
                let s = (dx as u128) * (dx as u128) + (dy as u128) * (dy as u128);
                if s <= (r as u128) * (r as u128) {
                    a
                } else {
                    let d255 = isqrt(65025 * s);
                    let v255 = 255 * (r as u128) + 255;
                    let f: u128 = if v255 > d255 {
                        v255 - d255
                    } else {
                        0
                    };
                    let f: u128 = if f > 255 {
                        255
                    } else {
                        f
                    };
                    let fa = f as u8;
                    if fa <= a {
                        fa
                    } else {
                        a
                    }
                }
            } else {
                a
            };
            out.set(x, y, 3, new_a);
            proof {
                assert(out@.chan(x as int, y as int, 3) == round_chan(
                    src@,
                    radius as int,
                    x as int,
                    y as int,
                    3,
                ));
            }
            x = x + 1;
        }
        y = y + 1;
    }
    out
}

/// Every channel value rounding produces is a byte.
pub proof fn lemma_round_chan_bounds(img: Img, radius: int, x: int, y: int, c: int)
    requires
        img.in_bounds(x, y),
        0 <= c < 4,
    ensures
        0 <= round_chan(img, radius, x, y, c) <= 255,
{
}

/// With radius zero, rounding changes no channel of any pixel.
pub proof fn lemma_round_zero_identity(img: Img)
    ensures
        forall|x: int, y: int, c: int|
            img.in_bounds(x, y) && 0 <= c < 4 ==> round_chan(img, 0, x, y, c) == img.chan(
                x,
                y,
                c,
            ),
{
    assert forall|x: int, y: int, c: int|
        img.in_bounds(x, y) && 0 <= c < 4 implies round_chan(img, 0, x, y, c) == img.chan(
        x,
        y,
        c,
    ) by {
        let w = img.width as int;
        let h = img.height as int;
        assert(corner_dist_sq(w, h, eff_radius(w, h, 0), x, y) == -1);
    }
}

/// Rounding keeps every RGB channel, keeps every pixel of the quarter
/// discs (and of the region outside the corner squares) byte-identical,
/// and never raises an alpha above its original value.
pub proof fn lemma_round_keeps_interior(img: Img, radius: int, x: int, y: int)
    requires
        img.in_bounds(x, y),
        0 <= radius,
    ensures
        forall|c: int| 0 <= c < 3 ==> round_chan(img, radius, x, y, c) == img.chan(x, y, c),
        round_chan(img, radius, x, y, 3) <= img.chan(x, y, 3),
        ({
            let w = img.width as int;
            let h = img.height as int;
            let r = eff_radius(w, h, radius);
            corner_dist_sq(w, h, r, x, y) <= r * r
        }) ==> round_chan(img, radius, x, y, 3) == img.chan(x, y, 3),
{
}

} // verus!
