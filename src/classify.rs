//! Foreground / background classification and the eight-neighbour border test.

use vstd::prelude::*;
use crate::raster::{Raster, Rgba, lemma_index};

verus! {

/// What counts as background.
#[derive(Clone, Copy, Debug, PartialEq, Eq, Structural)]
pub enum Background {
    /// A pixel is background exactly when its alpha is zero.
    Alpha,
    /// A pixel is background exactly when its red, green and blue channels equal
    /// these; alpha is deliberately ignored, so a transparent pixel of this colour
    /// is background too.
    Color(u8, u8, u8),
}

/// How a neighbour that falls outside the canvas is treated.
#[derive(Clone, Copy, Debug, PartialEq, Eq, Structural)]
pub enum EdgePolicy {
    /// Outside neighbours are ignored.
    Skip,
    /// Outside neighbours count as background, so the canvas edge borders the shape.
    TreatAsBackground,
}

pub open spec fn background_spec(p: Rgba, bg: Background) -> bool {
    match bg {
        Background::Alpha => p.a == 0,
        Background::Color(r, g, b) => p.r == r && p.g == g && p.b == b,
    }
}

/// Whether `pixel` is background under `bg`; foreground is its negation.
pub fn is_background(pixel: Rgba, bg: Background) -> (r: bool)
    ensures
        r == background_spec(pixel, bg),
{
    match bg {
        Background::Alpha => pixel.a == 0,
        Background::Color(r, g, b) => pixel.r == r && pixel.g == g && pixel.b == b,
    }
}

/// The raster with width `w`, height `h` and the given pixels.
pub open spec fn raster_of(w: u32, h: u32, pixels: Seq<Rgba>) -> Raster {
    Raster { width: w as nat, height: h as nat, pixels }
}

/// An in-bounds pixel counts as background when it is classified so or when it
/// was already made part of the outline (`marks`).
pub open spec fn counts_as_background(
    g: Raster,
    marks: Seq<bool>,
    bg: Background,
    x: int,
    y: int,
) -> bool {
    background_spec(g.at(x, y), bg) || marks[g.index(x, y)]
}

/// What probing the position `(x, y)` reports: background status inside the
/// canvas, and the edge policy's answer outside it.
pub open spec fn probe_spec(
    g: Raster,
    marks: Seq<bool>,
    bg: Background,
    edge: EdgePolicy,
    x: int,
    y: int,
) -> bool {
    if g.in_bounds(x, y) {
        counts_as_background(g, marks, bg, x, y)
    } else {
        edge is TreatAsBackground
    }
}

/// `(nx, ny)` lies in the 3 by 3 block centred on `(x, y)`.
pub open spec fn near(x: int, y: int, nx: int, ny: int) -> bool {
    x - 1 <= nx <= x + 1 && y - 1 <= ny <= y + 1
}

/// A foreground pixel with a probed neighbour that reports background.
pub open spec fn is_border(
    g: Raster,
    marks: Seq<bool>,
    bg: Background,
    edge: EdgePolicy,
    x: int,
    y: int,
) -> bool {
    &&& g.in_bounds(x, y)
    &&& !counts_as_background(g, marks, bg, x, y)
    &&& exists|nx: int, ny: int| near(x, y, nx, ny) && #[trigger] probe_spec(g, marks, bg, edge, nx, ny)
}

fn probe(
    w: u32,
    h: u32,
    pixels: &Vec<Rgba>,
    marks: &Vec<bool>,
    bg: Background,
    edge: EdgePolicy,
    x: i64,
    y: i64,
) -> (r: bool)
    requires
        pixels@.len() == w * h,
        marks@.len() == w * h,
    ensures
        r == probe_spec(raster_of(w, h, pixels@), marks@, bg, edge, x as int, y as int),
{
    if x < 0 || y < 0 || x >= w as i64 || y >= h as i64 {
        match edge {
            EdgePolicy::Skip => false,
            EdgePolicy::TreatAsBackground => true,
        }
    } else {
        proof {
            lemma_index(w as nat, h as nat, x as int, y as int);
        }
        let len = pixels.len();
        let i = (y as usize) * (w as usize) + (x as usize);
        is_background(pixels[i], bg) || marks[i]
    }
}

/// Whether the in-bounds pixel at `(x, y)` is a border pixel: foreground, with
/// a neighbour among its eight that is background under the edge policy.
pub fn pixel_is_border(
    w: u32,
    h: u32,
    pixels: &Vec<Rgba>,
    marks: &Vec<bool>,
    bg: Background,
    edge: EdgePolicy,
    x: u32,
    y: u32,
) -> (r: bool)
    requires
        pixels@.len() == w * h,
        marks@.len() == w * h,
        x < w,
        y < h,
    ensures
        r == is_border(raster_of(w, h, pixels@), marks@, bg, edge, x as int, y as int),
{
    let ghost g = raster_of(w, h, pixels@);
    let xi = x as i64;
    let yi = y as i64;
    if probe(w, h, pixels, marks, bg, edge, xi, yi) {
        return false;
    }
    let r = probe(w, h, pixels, marks, bg, edge, xi - 1, yi - 1)
        || probe(w, h, pixels, marks, bg, edge, xi, yi - 1)
        || probe(w, h, pixels, marks, bg, edge, xi + 1, yi - 1)
        || probe(w, h, pixels, marks, bg, edge, xi - 1, yi)
        || probe(w, h, pixels, marks, bg, edge, xi + 1, yi)
        || probe(w, h, pixels, marks, bg, edge, xi - 1, yi + 1)
        || probe(w, h, pixels, marks, bg, edge, xi, yi + 1)
        || probe(w, h, pixels, marks, bg, edge, xi + 1, yi + 1);
    proof {
        let (xs, ys) = (x as int, y as int);
        if !r {
            assert forall|nx: int, ny: int| near(xs, ys, nx, ny) implies !probe_spec(
                g,
                marks@,
                bg,
                edge,
                nx,
                ny,
            ) by {
                assert(nx == xs - 1 || nx == xs || nx == xs + 1);
                assert(ny == ys - 1 || ny == ys || ny == ys + 1);
            }
        }
    }
    r
}

} // verus!
