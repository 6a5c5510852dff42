//! Pixels, the pixel buffer type and its mathematical model.

use vstd::prelude::*;
use vstd::arithmetic::div_mod::{
    lemma_fundamental_div_mod,
    lemma_fundamental_div_mod_converse,
    lemma_mod_pos_bound,
};

verus! {

/// One pixel: red, green, blue and alpha channels, not premultiplied.
#[derive(Clone, Copy, Debug, PartialEq, Eq, Structural)]
pub struct Rgba {
    pub r: u8,
    pub g: u8,
    pub b: u8,
    pub a: u8,
}

/// The fully transparent black pixel that fills new canvas.
pub open spec fn transparent() -> Rgba {
    Rgba { r: 0, g: 0, b: 0, a: 0 }
}

/// The model of a pixel buffer: its dimensions and its pixels in row-major order.
pub struct Raster {
    pub width: nat,
    pub height: nat,
    pub pixels: Seq<Rgba>,
}

impl Raster {
    /// The number of pixels matches the dimensions.
    pub open spec fn wf(self) -> bool {
        self.pixels.len() == self.width * self.height
    }

    pub open spec fn in_bounds(self, x: int, y: int) -> bool {
        0 <= x < self.width && 0 <= y < self.height
    }

    /// Index of the pixel at column `x`, row `y`.
    pub open spec fn index(self, x: int, y: int) -> int {
        y * self.width + x
    }

    pub open spec fn at(self, x: int, y: int) -> Rgba {
        self.pixels[self.index(x, y)]
    }
}

/// Column of the pixel stored at index `i` of a row-major grid of width `w`.
pub open spec fn col_of(w: nat, i: int) -> int {
    i % (w as int)
}

/// Row of the pixel stored at index `i` of a row-major grid of width `w`.
pub open spec fn row_of(w: nat, i: int) -> int {
    i / (w as int)
}

/// Every index of a `w` by `h` grid splits into an in-bounds column and row.
pub proof fn lemma_coords(w: nat, h: nat, i: int)
    requires
        0 <= i < w * h,
    ensures
        w > 0,
        h > 0,
        0 <= col_of(w, i) < w,
        0 <= row_of(w, i) < h,
        row_of(w, i) * w + col_of(w, i) == i,
{
    assert(w > 0 && h > 0) by (nonlinear_arith)
        requires
            0 <= i < w * h,
    ;
    let wi = w as int;
    lemma_fundamental_div_mod(i, wi);
    lemma_mod_pos_bound(i, wi);
    let q = i / wi;
    let r = i % wi;
    assert(q * wi == wi * q) by (nonlinear_arith);
    assert(0 <= q < h) by (nonlinear_arith)
        requires
            i == wi * q + r,
            0 <= r < wi,
            0 <= i < wi * h,
            wi > 0,
    ;
}

/// The index of an in-bounds pixel lies in the grid and gives back its column and row.
pub proof fn lemma_index(w: nat, h: nat, x: int, y: int)
    requires
        0 <= x < w,
        0 <= y < h,
    ensures
        0 <= y * w + x < w * h,
        col_of(w, y * w + x) == x,
        row_of(w, y * w + x) == y,
{
    assert(0 <= y * w + x < w * h) by (nonlinear_arith)
        requires
            0 <= x < w,
            0 <= y < h,
    ;
    lemma_fundamental_div_mod_converse(y * w + x, w as int, y, x);
}

/// A rectangular grid of pixels whose pixel count always matches its dimensions.
pub struct PixelBuffer {
    width: u32,
    height: u32,
    pixels: Vec<Rgba>,
}

impl PixelBuffer {
    #[verifier::type_invariant]
    spec fn inv(self) -> bool {
        self.pixels@.len() == self.width * self.height
    }

    pub closed spec fn raster(self) -> Raster {
        Raster { width: self.width as nat, height: self.height as nat, pixels: self.pixels@ }
    }

    /// Builds a buffer from row-major pixels; `None` when their number is not
    /// `width * height`.
    pub fn from_pixels(width: u32, height: u32, pixels: Vec<Rgba>) -> (r: Option<PixelBuffer>)
        ensures
            r is Some <==> pixels@.len() == width * height,
            r matches Some(b) ==> b@ == (Raster {
                width: width as nat,
                height: height as nat,
                pixels: pixels@,
            }),
    {
        match (width as usize).checked_mul(height as usize) {
            Some(n) => {
                if pixels.len() == n {
                    Some(PixelBuffer { width, height, pixels })
                } else {
                    None
                }
            },
            None => {
                let len = pixels.len();
                assert(len as int != width * height);
                None
            },
        }
    }

    /// Builds a buffer from row-major pixels whose number is known to fit.
    pub(crate) fn from_vec(width: u32, height: u32, pixels: Vec<Rgba>) -> (r: PixelBuffer)
        requires
            pixels@.len() == width * height,
        ensures
            r@ == (Raster { width: width as nat, height: height as nat, pixels: pixels@ }),
    {
        PixelBuffer { width, height, pixels }
    }

    /// A buffer of the given size whose pixels are all fully transparent.
    pub fn new(width: u32, height: u32) -> (r: PixelBuffer)
        requires
            width * height <= usize::MAX,
        ensures
            r@.width == width,
            r@.height == height,
            r@.wf(),
            forall|i: int| 0 <= i < r@.pixels.len() ==> r@.pixels[i] == transparent(),
    {
        let n: usize = (width as usize) * (height as usize);
        let mut pixels: Vec<Rgba> = Vec::new();
        let mut i: usize = 0;
        while i < n
            invariant
                i <= n,
                pixels@.len() == i,
                forall|j: int| 0 <= j < i ==> pixels@[j] == transparent(),
            decreases n - i,
        {
            pixels.push(Rgba { r: 0, g: 0, b: 0, a: 0 });
            i = i + 1;
        }
        PixelBuffer { width, height, pixels }
    }

    pub fn width(&self) -> (r: u32)
        ensures
            r == self@.width,
    {
        self.width
    }

    pub fn height(&self) -> (r: u32)
        ensures
            r == self@.height,
    {
        self.height
    }

    /// The pixels in row-major order.
    pub fn pixels(&self) -> (r: &Vec<Rgba>)
        ensures
            r@ == self@.pixels,
            r@.len() == self@.width * self@.height,
    {
        proof { use_type_invariant(self); }
        &self.pixels
    }

    /// Takes the buffer apart into its row-major pixels.
    pub fn into_pixels(self) -> (r: Vec<Rgba>)
        ensures
            r@ == self@.pixels,
            r@.len() == self@.width * self@.height,
    {
        proof { use_type_invariant(&self); }
        self.pixels
    }

    /// The pixel at column `x`, row `y`.
    pub fn get_pixel(&self, x: u32, y: u32) -> (r: Rgba)
        requires
            self@.in_bounds(x as int, y as int),
        ensures
            r == self@.at(x as int, y as int),
    {
        proof {
            use_type_invariant(self);
            lemma_index(self.width as nat, self.height as nat, x as int, y as int);
        }
        let len = self.pixels.len();
        self.pixels[(y as usize) * (self.width as usize) + (x as usize)]
    }
}

impl View for PixelBuffer {
    type V = Raster;

    open spec fn view(&self) -> Raster {
        self.raster()
    }
}

/// The raster grown by one fully transparent pixel on each of its four sides.
pub open spec fn pad_spec(g: Raster) -> Raster {
    let w = g.width + 2;
    let h = g.height + 2;
    Raster {
        width: w,
        height: h,
        pixels: Seq::new(
            w * h,
            |i: int|
                {
                    let x = col_of(w, i);
                    let y = row_of(w, i);
                    if 1 <= x <= g.width && 1 <= y <= g.height {
                        g.at(x - 1, y - 1)
                    } else {
                        transparent()
                    }
                },
        ),
    }
}

/// The padded raster, pixel by pixel: a transparent ring around an exact copy.
pub proof fn lemma_pad_shape(g: Raster)
    requires
        g.wf(),
    ensures
        pad_spec(g).wf(),
        pad_spec(g).width == g.width + 2,
        pad_spec(g).height == g.height + 2,
        forall|x: int, y: int|
            #![trigger pad_spec(g).at(x, y)]
            pad_spec(g).in_bounds(x, y) && (x == 0 || y == 0 || x == g.width + 1 || y == g.height
                + 1) ==> pad_spec(g).at(x, y) == transparent(),
        forall|x: int, y: int|
            #![trigger g.at(x, y)]
            g.in_bounds(x, y) ==> pad_spec(g).at(x + 1, y + 1) == g.at(x, y),
{
    let p = pad_spec(g);
    assert forall|x: int, y: int|
        #![trigger p.at(x, y)]
        p.in_bounds(x, y) ==> p.at(x, y) == if 1 <= x <= g.width && 1 <= y <= g.height {
            g.at(x - 1, y - 1)
        } else {
            transparent()
        } by {
        if p.in_bounds(x, y) {
            lemma_index(p.width, p.height, x, y);
        }
    }
    assert forall|x: int, y: int| #![trigger g.at(x, y)] g.in_bounds(x, y) implies p.at(x + 1, y
        + 1) == g.at(x, y) by {
        assert(p.in_bounds(x + 1, y + 1));
        assert(p.at(x + 1, y + 1) == g.at(x, y));
    }
}

/// Grows the buffer by one fully transparent pixel on every side; the source
/// pixels keep their values, shifted by one column and one row.
pub fn add_pixel_padding(img: &PixelBuffer) -> (r: PixelBuffer)
    requires
        img@.width + 2 <= u32::MAX,
        img@.height + 2 <= u32::MAX,
        (img@.width + 2) * (img@.height + 2) <= usize::MAX,
    ensures
        r@ == pad_spec(img@),
        r@.wf(),
        r@.width == img@.width + 2,
        r@.height == img@.height + 2,
        forall|x: int, y: int|
            r@.in_bounds(x, y) && (x == 0 || y == 0 || x == r@.width - 1 || y == r@.height - 1)
                ==> #[trigger] r@.at(x, y) == transparent(),
        forall|x: int, y: int|
            img@.in_bounds(x, y) ==> r@.at(x + 1, y + 1) == #[trigger] img@.at(x, y),
{
    let w = img.width();
    let h = img.height();
    let src = img.pixels();
    let pw = w + 2;
    let ph = h + 2;
    let n: usize = (pw as usize) * (ph as usize);
    let src_len: usize = src.len();
    let ghost p = pad_spec(img@);
    let mut out: Vec<Rgba> = Vec::new();
    let mut i: usize = 0;
    while i < n
        invariant
            i <= n,
            n == pw * ph,
            pw == w + 2,
            ph == h + 2,
            w == img@.width,
            h == img@.height,
            src@ == img@.pixels,
            src@.len() == w * h,
            src@.len() == src_len,
            p == pad_spec(img@),
            out@.len() == i,
            forall|j: int| 0 <= j < i ==> out@[j] == p.pixels[j],
        decreases n - i,
    {
        proof {
            lemma_coords(pw as nat, ph as nat, i as int);
        }
        let x = i % (pw as usize);
        let y = i / (pw as usize);
        if 1 <= x && x <= w as usize && 1 <= y && y <= h as usize {
            proof {
                lemma_index(w as nat, h as nat, x - 1, y - 1);
            }
            out.push(src[(y - 1) * (w as usize) + (x - 1)]);
        } else {
            out.push(Rgba { r: 0, g: 0, b: 0, a: 0 });
        }
        i = i + 1;
    }
    proof {
        lemma_pad_shape(img@);
        assert(out@ =~= p.pixels);
    }
    PixelBuffer { width: pw, height: ph, pixels: out }
}

} // verus!
