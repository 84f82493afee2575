use vstd::prelude::*;
use vstd::arithmetic::div_mod::{lemma_fundamental_div_mod, lemma_fundamental_div_mod_converse};

verus! {

/// Mathematical model of a raster: its dimensions and the raw byte
/// sequence, row-major, four bytes (R, G, B, A) per pixel.
pub struct Img {
    pub width: nat,
    pub height: nat,
    pub data: Seq<u8>,
}

/// The position of channel `c` of the pixel at column `x` of row `y`
/// inside the byte sequence of a raster `w` pixels wide.
pub open spec fn byte_index(w: int, x: int, y: int, c: int) -> int {
    (y * w + x) * 4 + c
}

impl Img {
    /// The byte sequence holds exactly four bytes per pixel.
    pub open spec fn wf(self) -> bool {
        self.data.len() == self.width * self.height * 4
    }

    pub open spec fn in_bounds(self, x: int, y: int) -> bool {
        0 <= x < self.width && 0 <= y < self.height
    }

    /// Channel `c` (0 = R, 1 = G, 2 = B, 3 = A) of the pixel at column `x` of row `y`.
    pub open spec fn chan(self, x: int, y: int, c: int) -> u8
        recommends
            self.in_bounds(x, y),
            0 <= c < 4,
    {
        self.data[byte_index(self.width as int, x, y, c)]
    }

    /// Channel value as an integer, zero outside the raster.
    pub open spec fn sample(self, x: int, y: int, c: int) -> int
        recommends
            0 <= c < 4,
    {
        if self.in_bounds(x, y) {
            self.chan(x, y, c) as int
        } else {
            0
        }
    }
}

/// A valid channel position lies within the pixel buffer, and not before
/// the start of its own row.
pub proof fn lemma_byte_index_bounds(w: int, h: int, x: int, y: int, c: int)
    requires
        0 <= x < w,
        0 <= y < h,
        0 <= c < 4,
    ensures
        0 <= y * w,
        y * w + x <= byte_index(w, x, y, c),
        byte_index(w, x, y, c) < w * h * 4,
{
    assert(0 <= y * w && y * w + x <= (y * w + x) * 4 + c && (y * w + x) * 4 + c < w * h * 4)
        by (nonlinear_arith)
        requires
            0 <= x < w,
            0 <= y < h,
            0 <= c < 4,
    ;
}

/// The byte position determines the pixel and the channel.
pub proof fn lemma_byte_index_injective(
    w: int,
    x1: int,
    y1: int,
    c1: int,
    x2: int,
    y2: int,
    c2: int,
)
    requires
        0 <= x1 < w,
        0 <= y1,
        0 <= c1 < 4,
        0 <= x2 < w,
        0 <= y2,
        0 <= c2 < 4,
        byte_index(w, x1, y1, c1) == byte_index(w, x2, y2, c2),
    ensures
        x1 == x2,
        y1 == y2,
        c1 == c2,
{
    let e = byte_index(w, x1, y1, c1);
    lemma_fundamental_div_mod_converse(e, 4, y1 * w + x1, c1);
    lemma_fundamental_div_mod_converse(e, 4, y2 * w + x2, c2);
    lemma_fundamental_div_mod_converse(y1 * w + x1, w, y1, x1);
    lemma_fundamental_div_mod_converse(y2 * w + x2, w, y2, x2);
}

/// Two well-formed images with equal dimensions and equal channels at
/// every pixel are equal.
pub proof fn lemma_img_eq(a: Img, b: Img)
    requires
        a.wf(),
        b.wf(),
        a.width == b.width,
        a.height == b.height,
        forall|x: int, y: int, c: int|
            a.in_bounds(x, y) && 0 <= c < 4 ==> a.chan(x, y, c) == b.chan(x, y, c),
    ensures
        a == b,
{
    let w = a.width as int;
    let h = a.height as int;
    assert forall|i: int| 0 <= i < a.data.len() implies a.data[i] == b.data[i] by {
        assert(w >= 1 && h >= 1) by (nonlinear_arith)
            requires
                w >= 0,
                h >= 0,
                w * h * 4 >= 1,
        ;
        lemma_fundamental_div_mod(i, 4);
        let pix = i / 4;
        let c = i % 4;
        assert(4 * pix < 4 * (w * h)) by {
            assert(w * h * 4 == 4 * (w * h)) by (nonlinear_arith);
        }
        lemma_fundamental_div_mod(pix, w);
        let x = pix % w;
        let y = pix / w;
        assert(y < h) by (nonlinear_arith)
            requires
                w >= 1,
                w * y <= pix,
                pix < w * h,
        ;
        assert(y >= 0) by (nonlinear_arith)
            requires
                w >= 1,
                w * y + x == pix,
                0 <= x < w,
                pix >= 0,
        ;
        assert(i == byte_index(w, x, y, c));
        assert(a.chan(x, y, c) == b.chan(x, y, c));
    }
    assert(a.data =~= b.data);
}

/// The image of the given dimensions whose channel at `(x, y, c)` is
/// `f(x, y, c)`.
pub open spec fn img_of(w: nat, h: nat, f: spec_fn(int, int, int) -> u8) -> Img {
    Img {
        width: w,
        height: h,
        data: Seq::new(w * h * 4, |i: int| f((i / 4) % (w as int), (i / 4) / (w as int), i % 4)),
    }
}

/// `img_of` is well formed and has the stated dimensions.
pub proof fn lemma_img_of_shape(w: nat, h: nat, f: spec_fn(int, int, int) -> u8)
    ensures
        img_of(w, h, f).wf(),
        img_of(w, h, f).width == w,
        img_of(w, h, f).height == h,
{
}

/// `img_of` holds `f(x, y, c)` at every channel of every pixel.
pub proof fn lemma_img_of_chan(w: nat, h: nat, f: spec_fn(int, int, int) -> u8, x: int, y: int, c: int)
    requires
        0 <= x < w,
        0 <= y < h,
        0 <= c < 4,
    ensures
        img_of(w, h, f).chan(x, y, c) == f(x, y, c),
{
    lemma_byte_index_bounds(w as int, h as int, x, y, c);
    let e = byte_index(w as int, x, y, c);
    lemma_fundamental_div_mod_converse(e, 4, y * (w as int) + x, c);
    lemma_fundamental_div_mod_converse(y * (w as int) + x, w as int, y, x);
}

/// An RGBA raster with 8-bit channels, stored row-major.
#[derive(Debug)]
pub struct Raster {
    width: usize,
    height: usize,
    pixels: Vec<u8>,
}

impl View for Raster {
    type V = Img;

    closed spec fn view(&self) -> Img {
        Img { width: self.width as nat, height: self.height as nat, data: self.pixels@ }
    }
}

impl Raster {
    /// The pixel buffer is held in memory, so its length fits a `usize`.
    pub proof fn lemma_fits(&self)
        requires
            self@.wf(),
        ensures
            self@.width * self@.height * 4 <= usize::MAX,
    {
        vstd::std_specs::vec::axiom_spec_len(&self.pixels);
    }

    pub fn width(&self) -> (w: usize)
        ensures
            w == self@.width,
    {
        self.width
    }

    pub fn height(&self) -> (h: usize)
        ensures
            h == self@.height,
    {
        self.height
    }

    /// A raster of the given dimensions with every byte zero.
    pub fn new(width: usize, height: usize) -> (r: Raster)
        requires
            width * height * 4 <= usize::MAX,
        ensures
            r@.wf(),
            r@.width == width,
            r@.height == height,
            forall|x: int, y: int, c: int|
                r@.in_bounds(x, y) && 0 <= c < 4 ==> r@.chan(x, y, c) == 0,
    {
        proof {
            assert(width * height <= width * height * 4) by (nonlinear_arith)
                requires
                    width >= 0,
                    height >= 0,
            ;
        }
        let n = width * height * 4;
        let mut pixels: Vec<u8> = Vec::new();
        while pixels.len() < n
            invariant
                pixels@.len() <= n,
                forall|i: int| 0 <= i < pixels@.len() ==> pixels@[i] == 0,
            decreases n - pixels@.len(),
        {
            pixels.push(0);
        }
        let r = Raster { width, height, pixels };
        proof {
            assert forall|x: int, y: int, c: int|
                r@.in_bounds(x, y) && 0 <= c < 4 implies r@.chan(x, y, c) == 0 by {
                lemma_byte_index_bounds(width as int, height as int, x, y, c);
            }
        }
        r
    }

    /// Wraps a raw RGBA byte buffer; `None` unless it holds exactly
    /// `width * height * 4` bytes.
    pub fn from_pixels(width: usize, height: usize, pixels: Vec<u8>) -> (r: Option<Raster>)
        ensures
            r is Some <==> pixels@.len() == width * height * 4,
            r matches Some(t) ==> t@.wf() && t@.width == width && t@.height == height && t@.data
                == pixels@,
    {
        let len = pixels.len();
        let ok = match width.checked_mul(height) {
            Some(p) => match p.checked_mul(4) {
                Some(n) => n == len,
                None => false,
            },
            None => false,
        };
        proof {
            assert(width * height <= width * height * 4) by (nonlinear_arith)
                requires
                    width >= 0,
                    height >= 0,
            ;
        }
        if ok {
            Some(Raster { width, height, pixels })
        } else {
            None
        }
    }

    /// Hands the raw byte buffer back.
    pub fn into_pixels(self) -> (v: Vec<u8>)
        ensures
            v@ == self@.data,
    {
        self.pixels
    }

    /// Reads channel `c` of the pixel at `(x, y)`.
    pub fn get(&self, x: usize, y: usize, c: usize) -> (v: u8)
        requires
            self@.wf(),
            x < self@.width,
            y < self@.height,
            c < 4,
        ensures
            v == self@.chan(x as int, y as int, c as int),
    {
        let n = self.pixels.len();
        proof {
            lemma_byte_index_bounds(
                self@.width as int,
                self@.height as int,
                x as int,
                y as int,
                c as int,
            );
            assert(byte_index(self@.width as int, x as int, y as int, c as int) < n);
        }
        let idx = (y * self.width + x) * 4 + c;
        self.pixels[idx]
    }

    /// Writes channel `c` of the pixel at `(x, y)`; every other byte is kept.
    pub fn set(&mut self, x: usize, y: usize, c: usize, v: u8)
        requires
            old(self)@.wf(),
            x < old(self)@.width,
            y < old(self)@.height,
            c < 4,
        ensures
            final(self)@.wf(),
            final(self)@.width == old(self)@.width,
            final(self)@.height == old(self)@.height,
            final(self)@.data == old(self)@.data.update(
                byte_index(old(self)@.width as int, x as int, y as int, c as int),
                v,
            ),
            final(self)@.chan(x as int, y as int, c as int) == v,
            forall|i: int, j: int, k: int|
                old(self)@.in_bounds(i, j) && 0 <= k < 4 && !(i == x && j == y && k == c)
                    ==> final(self)@.chan(i, j, k) == old(self)@.chan(i, j, k),
    {
        let ghost w = self@.width as int;
        let ghost h = self@.height as int;
        let n = self.pixels.len();
        proof {
            lemma_byte_index_bounds(w, h, x as int, y as int, c as int);
            assert(byte_index(w, x as int, y as int, c as int) < n);
        }
        let idx = (y * self.width + x) * 4 + c;
        self.pixels[idx] = v;
        proof {
            assert forall|i: int, j: int, k: int|
                old(self)@.in_bounds(i, j) && 0 <= k < 4 && !(i == x && j == y && k == c)
                    implies final(self)@.chan(i, j, k) == old(self)@.chan(i, j, k) by {
                lemma_byte_index_bounds(w, h, i, j, k);
                if byte_index(w, i, j, k) == byte_index(w, x as int, y as int, c as int) {
                    lemma_byte_index_injective(w, i, j, k, x as int, y as int, c as int);
                }
            }
        }
    }
}

} // verus!
