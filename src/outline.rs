//! The outliner: border passes, thickening, widening and the whole operation.

use vstd::prelude::*;
use crate::classify::{
    Background,
    EdgePolicy,
    background_spec,
    is_background,
    is_border,
    near,
    pixel_is_border,
    raster_of,
};
use crate::raster::{
    PixelBuffer,
    Raster,
    Rgba,
    add_pixel_padding,
    col_of,
    lemma_coords,
    lemma_index,
    pad_spec,
    row_of,
};

verus! {

/// The options of one outlining run.
#[derive(Clone, Copy, Debug, PartialEq, Eq, Structural)]
pub struct OutlineOptions {
    /// Grow the canvas by one transparent pixel on each side before anything else.
    pub pad: bool,
    /// After the passes, also recolour every neighbour of every outline pixel.
    pub extra_wide: bool,
    /// Number of border passes; each one thickens the outline by one pixel.
    pub weight: u32,
    /// How neighbours outside the canvas are treated.
    pub edge_policy: EdgePolicy,
}

/// The opaque pixel written for an outline of colour `c` (red, green, blue).
pub open spec fn outline_pixel(c: (u8, u8, u8)) -> Rgba {
    Rgba { r: c.0, g: c.1, b: c.2, a: 255 }
}

/// Whether the pixel stored at index `i` is a border pixel.
pub open spec fn border_at(
    g: Raster,
    marks: Seq<bool>,
    bg: Background,
    edge: EdgePolicy,
    i: int,
) -> bool {
    is_border(g, marks, bg, edge, col_of(g.width, i), row_of(g.width, i))
}

/// One pass: every border pixel, found on the pixels as they were before the
/// pass, is recoloured and marked as outline.
pub open spec fn pass_spec(
    g: Raster,
    marks: Seq<bool>,
    bg: Background,
    edge: EdgePolicy,
    c: (u8, u8, u8),
) -> (Raster, Seq<bool>) {
    (
        Raster {
            width: g.width,
            height: g.height,
            pixels: Seq::new(
                g.pixels.len(),
                |i: int|
                    if border_at(g, marks, bg, edge, i) {
                        outline_pixel(c)
                    } else {
                        g.pixels[i]
                    },
            ),
        },
        Seq::new(marks.len(), |i: int| marks[i] || border_at(g, marks, bg, edge, i)),
    )
}

/// `k` passes in a row, each on the result of the one before.
pub open spec fn passes_spec(
    g: Raster,
    marks: Seq<bool>,
    bg: Background,
    edge: EdgePolicy,
    c: (u8, u8, u8),
    k: nat,
) -> (Raster, Seq<bool>)
    decreases k,
{
    if k == 0 {
        (g, marks)
    } else {
        let s = passes_spec(g, marks, bg, edge, c, (k - 1) as nat);
        pass_spec(s.0, s.1, bg, edge, c)
    }
}

/// The in-bounds pixel at `(x, y)` is marked.
pub open spec fn marked(g: Raster, marks: Seq<bool>, x: int, y: int) -> bool {
    g.in_bounds(x, y) && marks[g.index(x, y)]
}

/// Some pixel of the 3 by 3 block centred on `(x, y)` is marked.
pub open spec fn marked_near(g: Raster, marks: Seq<bool>, x: int, y: int) -> bool {
    exists|qx: int, qy: int| near(x, y, qx, qy) && #[trigger] marked(g, marks, qx, qy)
}

/// Widening: every marked pixel and each of its in-bounds neighbours takes the
/// outline colour.
pub open spec fn widen_spec(g: Raster, marks: Seq<bool>, c: (u8, u8, u8)) -> Raster {
    Raster {
        width: g.width,
        height: g.height,
        pixels: Seq::new(
            g.pixels.len(),
            |i: int|
                if marked_near(g, marks, col_of(g.width, i), row_of(g.width, i)) {
                    outline_pixel(c)
                } else {
                    g.pixels[i]
                },
        ),
    }
}

/// The canvas the passes work on: the input, padded when asked.
pub open spec fn canvas(g: Raster, o: OutlineOptions) -> Raster {
    if o.pad {
        pad_spec(g)
    } else {
        g
    }
}

/// No pixel marked.
pub open spec fn unmarked(n: nat) -> Seq<bool> {
    Seq::new(n, |i: int| false)
}

/// Pixels and outline marks after all passes, before widening.
pub open spec fn outline_passes(
    g: Raster,
    bg: Background,
    c: (u8, u8, u8),
    o: OutlineOptions,
) -> (Raster, Seq<bool>) {
    let cv = canvas(g, o);
    passes_spec(cv, unmarked(cv.pixels.len()), bg, o.edge_policy, c, o.weight as nat)
}

/// The outline pixels found by the passes, as marks over the canvas.
pub open spec fn outline_marks(
    g: Raster,
    bg: Background,
    c: (u8, u8, u8),
    o: OutlineOptions,
) -> Seq<bool> {
    outline_passes(g, bg, c, o).1
}

/// The outlined raster.
pub open spec fn outline_spec(
    g: Raster,
    bg: Background,
    c: (u8, u8, u8),
    o: OutlineOptions,
) -> Raster {
    let s = outline_passes(g, bg, c, o);
    if o.extra_wide {
        widen_spec(s.0, s.1, c)
    } else {
        s.0
    }
}

/// The border flag of every pixel, read from the pixels and marks as they are.
fn find_border(
    w: u32,
    h: u32,
    pixels: &Vec<Rgba>,
    marks: &Vec<bool>,
    bg: Background,
    edge: EdgePolicy,
) -> (r: Vec<bool>)
    requires
        pixels@.len() == w * h,
        marks@.len() == w * h,
    ensures
        r@.len() == w * h,
        forall|i: int|
            0 <= i < r@.len() ==> r@[i] == border_at(raster_of(w, h, pixels@), marks@, bg, edge, i),
{
    let n: usize = pixels.len();
    let mut r: Vec<bool> = Vec::new();
    let mut i: usize = 0;
    while i < n
        invariant
            i <= n,
            n == w * h,
            pixels@.len() == w * h,
            marks@.len() == w * h,
            r@.len() == i,
            forall|j: int|
                0 <= j < i ==> r@[j] == border_at(raster_of(w, h, pixels@), marks@, bg, edge, j),
        decreases n - i,
    {
        proof {
            lemma_coords(w as nat, h as nat, i as int);
        }
        let x = (i % (w as usize)) as u32;
        let y = (i / (w as usize)) as u32;
        r.push(pixel_is_border(w, h, pixels, marks, bg, edge, x, y));
        i = i + 1;
    }
    r
}

/// One outlining pass over `pixels`: every border pixel, found before any
/// write, takes the outline colour and is added to `marks`.
pub fn outline_rgba8_single(
    w: u32,
    h: u32,
    pixels: &mut Vec<Rgba>,
    marks: &mut Vec<bool>,
    bg: Background,
    outline_color: (u8, u8, u8),
    edge: EdgePolicy,
)
    requires
        old(pixels)@.len() == w * h,
        old(marks)@.len() == w * h,
    ensures
        (raster_of(w, h, final(pixels)@), final(marks)@) == pass_spec(
            raster_of(w, h, old(pixels)@),
            old(marks)@,
            bg,
            edge,
            outline_color,
        ),
{
    let ghost s = pass_spec(raster_of(w, h, pixels@), marks@, bg, edge, outline_color);
    let border = find_border(w, h, pixels, marks, bg, edge);
    let n: usize = pixels.len();
    let mut i: usize = 0;
    while i < n
        invariant
            i <= n,
            n == w * h,
            border@.len() == n,
            pixels@.len() == n,
            marks@.len() == n,
            s.0.pixels.len() == n,
            s.1.len() == n,
            old(pixels)@.len() == n,
            old(marks)@.len() == n,
            forall|j: int| 0 <= j < n ==> #[trigger] s.0.pixels[j] == if border@[j] {
                outline_pixel(outline_color)
            } else {
                old(pixels)@[j]
            },
            forall|j: int| 0 <= j < n ==> #[trigger] s.1[j] == (old(marks)@[j] || border@[j]),
            forall|j: int| 0 <= j < i ==> pixels@[j] == s.0.pixels[j],
            forall|j: int| 0 <= j < i ==> marks@[j] == s.1[j],
            forall|j: int| i <= j < n ==> pixels@[j] == old(pixels)@[j],
            forall|j: int| i <= j < n ==> marks@[j] == old(marks)@[j],
        decreases n - i,
    {
        if border[i] {
            pixels.set(i, Rgba { r: outline_color.0, g: outline_color.1, b: outline_color.2, a: 255 });
            marks.set(i, true);
        }
        i = i + 1;
    }
    proof {
        assert(pixels@ =~= s.0.pixels);
        assert(marks@ =~= s.1);
    }
}

fn marked_at(w: u32, h: u32, marks: &Vec<bool>, x: i64, y: i64) -> (r: bool)
    requires
        marks@.len() == w * h,
    ensures
        r == marked(raster_of(w, h, Seq::empty()), marks@, x as int, y as int),
{
    if x < 0 || y < 0 || x >= w as i64 || y >= h as i64 {
        false
    } else {
        proof {
            lemma_index(w as nat, h as nat, x as int, y as int);
        }
        let len = marks.len();
        marks[(y as usize) * (w as usize) + (x as usize)]
    }
}

/// Whether a pixel of the 3 by 3 block centred on `(x, y)` is marked.
fn marked_near_exec(w: u32, h: u32, marks: &Vec<bool>, x: u32, y: u32) -> (r: bool)
    requires
        marks@.len() == w * h,
    ensures
        forall|g: Raster|
            g.width == w && g.height == h ==> (r == #[trigger] marked_near(
                g,
                marks@,
                x as int,
                y as int,
            )),
{
    let xi = x as i64;
    let yi = y as i64;
    let r = marked_at(w, h, marks, xi - 1, yi - 1) || marked_at(w, h, marks, xi, yi - 1)
        || marked_at(w, h, marks, xi + 1, yi - 1) || marked_at(w, h, marks, xi - 1, yi)
        || marked_at(w, h, marks, xi, yi) || marked_at(w, h, marks, xi + 1, yi)
        || marked_at(w, h, marks, xi - 1, yi + 1) || marked_at(w, h, marks, xi, yi + 1)
        || marked_at(w, h, marks, xi + 1, yi + 1);
    proof {
        let (xs, ys) = (x as int, y as int);
        let g0 = raster_of(w, h, Seq::empty());
        assert forall|g: Raster| g.width == w && g.height == h implies (r == #[trigger] marked_near(
            g,
            marks@,
            xs,
            ys,
        )) by {
            assert forall|qx: int, qy: int| #[trigger]
                marked(g, marks@, qx, qy) == marked(g0, marks@, qx, qy) by {}
            if !r {
                assert forall|qx: int, qy: int| near(xs, ys, qx, qy) implies !marked(
                    g,
                    marks@,
                    qx,
                    qy,
                ) by {
                    assert(qx == xs - 1 || qx == xs || qx == xs + 1);
                    assert(qy == ys - 1 || qy == ys || qy == ys + 1);
                    assert(marked(g, marks@, qx, qy) == marked(g0, marks@, qx, qy));
                }
            } else {
                assert(near(xs, ys, xs, ys));
                if marked(g0, marks@, xs - 1, ys - 1) { assert(marked(g, marks@, xs - 1, ys - 1)); }
                if marked(g0, marks@, xs, ys - 1) { assert(marked(g, marks@, xs, ys - 1)); }
                if marked(g0, marks@, xs + 1, ys - 1) { assert(marked(g, marks@, xs + 1, ys - 1)); }
                if marked(g0, marks@, xs - 1, ys) { assert(marked(g, marks@, xs - 1, ys)); }
                if marked(g0, marks@, xs, ys) { assert(marked(g, marks@, xs, ys)); }
                if marked(g0, marks@, xs + 1, ys) { assert(marked(g, marks@, xs + 1, ys)); }
                if marked(g0, marks@, xs - 1, ys + 1) { assert(marked(g, marks@, xs - 1, ys + 1)); }
                if marked(g0, marks@, xs, ys + 1) { assert(marked(g, marks@, xs, ys + 1)); }
                if marked(g0, marks@, xs + 1, ys + 1) { assert(marked(g, marks@, xs + 1, ys + 1)); }
            }
        }
    }
    r
}

/// Widening: every marked pixel and each of its in-bounds neighbours takes the
/// outline colour; other pixels keep theirs.
fn widen(
    w: u32,
    h: u32,
    pixels: &Vec<Rgba>,
    marks: &Vec<bool>,
    outline_color: (u8, u8, u8),
) -> (r: Vec<Rgba>)
    requires
        pixels@.len() == w * h,
        marks@.len() == w * h,
    ensures
        raster_of(w, h, r@) == widen_spec(raster_of(w, h, pixels@), marks@, outline_color),
{
    let ghost g = raster_of(w, h, pixels@);
    let ghost t = widen_spec(g, marks@, outline_color);
    let n: usize = pixels.len();
    let mut r: Vec<Rgba> = Vec::new();
    let mut i: usize = 0;
    while i < n
        invariant
            i <= n,
            n == w * h,
            pixels@.len() == n,
            marks@.len() == n,
            g == raster_of(w, h, pixels@),
            t == widen_spec(g, marks@, outline_color),
            r@.len() == i,
            forall|j: int| 0 <= j < i ==> r@[j] == t.pixels[j],
        decreases n - i,
    {
        proof {
            lemma_coords(w as nat, h as nat, i as int);
        }
        let x = (i % (w as usize)) as u32;
        let y = (i / (w as usize)) as u32;
        if marked_near_exec(w, h, marks, x, y) {
            r.push(Rgba { r: outline_color.0, g: outline_color.1, b: outline_color.2, a: 255 });
        } else {
            r.push(pixels[i]);
        }
        proof {
            assert(marked_near(g, marks@, x as int, y as int) == marked_near(
                g,
                marks@,
                col_of(g.width, i as int),
                row_of(g.width, i as int),
            ));
        }
        i = i + 1;
    }
    proof {
        assert(r@ =~= t.pixels);
    }
    r
}

/// An exact copy of `src`.
fn copy_pixels(src: &Vec<Rgba>) -> (r: Vec<Rgba>)
    ensures
        r@ == src@,
{
    let n: usize = src.len();
    let mut r: Vec<Rgba> = Vec::new();
    let mut i: usize = 0;
    while i < n
        invariant
            i <= n,
            n == src@.len(),
            r@ == src@.subrange(0, i as int),
        decreases n - i,
    {
        r.push(src[i]);
        i = i + 1;
        proof {
            assert(r@ =~= src@.subrange(0, i as int));
        }
    }
    proof {
        assert(r@ =~= src@);
    }
    r
}

/// Outlines the foreground of `img`: pads the canvas when asked, runs
/// `options.weight` border passes, then widens the outline when asked. The input
/// is left as it is; the result is a new buffer.
pub fn outline_rgba8(
    img: &PixelBuffer,
    bg: Background,
    outline_color: (u8, u8, u8),
    options: OutlineOptions,
) -> (r: PixelBuffer)
    requires
        options.pad ==> img@.width + 2 <= u32::MAX && img@.height + 2 <= u32::MAX && (img@.width
            + 2) * (img@.height + 2) <= usize::MAX,
    ensures
        r@ == outline_spec(img@, bg, outline_color, options),
        r@.wf(),
        r@.width == canvas(img@, options).width,
        r@.height == canvas(img@, options).height,
{
    let cv = if options.pad {
        add_pixel_padding(img)
    } else {
        let w0 = img.width();
        let h0 = img.height();
        let p0 = copy_pixels(img.pixels());
        PixelBuffer::from_vec(w0, h0, p0)
    };
    let ghost g = cv@;
    assert(g == canvas(img@, options));
    let w = cv.width();
    let h = cv.height();
    let mut pixels = cv.into_pixels();
    let n: usize = pixels.len();
    let mut marks: Vec<bool> = Vec::new();
    let mut i: usize = 0;
    while i < n
        invariant
            i <= n,
            marks@ == unmarked(i as nat),
        decreases n - i,
    {
        marks.push(false);
        i = i + 1;
        proof {
            assert(marks@ =~= unmarked(i as nat));
        }
    }
    let mut k: u32 = 0;
    while k < options.weight
        invariant
            k <= options.weight,
            pixels@.len() == w * h,
            marks@.len() == w * h,
            g.width == w,
            g.height == h,
            n == w * h,
            (raster_of(w, h, pixels@), marks@) == passes_spec(
                g,
                unmarked(n as nat),
                bg,
                options.edge_policy,
                outline_color,
                k as nat,
            ),
        decreases options.weight - k,
    {
        outline_rgba8_single(w, h, &mut pixels, &mut marks, bg, outline_color, options.edge_policy);
        k = k + 1;
    }
    if options.extra_wide {
        pixels = widen(w, h, &pixels, &marks, outline_color);
    }
    PixelBuffer::from_vec(w, h, pixels)
}

/// The in-bounds pixel at `(x, y)` lies in the outermost ring of the canvas.
pub open spec fn on_edge(g: Raster, x: int, y: int) -> bool {
    g.in_bounds(x, y) && (x == 0 || y == 0 || x == g.width - 1 || y == g.height - 1)
}

/// Some foreground pixel lies in the outermost ring of the canvas.
pub open spec fn touches_edge_spec(g: Raster, bg: Background) -> bool {
    exists|x: int, y: int| #[trigger] on_edge(g, x, y) && !background_spec(g.at(x, y), bg)
}

/// Whether a foreground pixel of `img` lies on its edge: the up-front check that
/// tells a caller whether padding is needed for such pixels to get an outline.
pub fn touches_edge(img: &PixelBuffer, bg: Background) -> (r: bool)
    ensures
        r == touches_edge_spec(img@, bg),
{
    let w = img.width();
    let h = img.height();
    let pixels = img.pixels();
    let n: usize = pixels.len();
    let ghost g = img@;
    let mut i: usize = 0;
    while i < n
        invariant
            i <= n,
            n == w * h,
            g == img@,
            g.width == w,
            g.height == h,
            pixels@ == g.pixels,
            pixels@.len() == n,
            forall|j: int|
                0 <= j < i ==> !(on_edge(g, col_of(w as nat, j), row_of(w as nat, j))
                    && !background_spec(g.pixels[j], bg)),
        decreases n - i,
    {
        proof {
            lemma_coords(w as nat, h as nat, i as int);
        }
        let x = (i % (w as usize)) as u32;
        let y = (i / (w as usize)) as u32;
        if (x == 0 || y == 0 || x == w - 1 || y == h - 1) && !is_background(pixels[i], bg) {
            proof {
                assert(on_edge(g, x as int, y as int));
            }
            return true;
        }
        i = i + 1;
    }
    proof {
        if touches_edge_spec(g, bg) {
            let (x, y) = choose|x: int, y: int| #[trigger] on_edge(g, x, y) && !background_spec(g.at(x, y), bg);
            lemma_index(w as nat, h as nat, x, y);
            let j = g.index(x, y);
            assert(!(on_edge(g, col_of(w as nat, j), row_of(w as nat, j)) && !background_spec(g.pixels[j], bg)));
            assert(false);
        }
    }
    false
}

} // verus!
