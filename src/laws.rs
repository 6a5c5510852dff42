//! Properties of the outliner, stated over the model and proved.

use vstd::prelude::*;
use crate::classify::{
    Background,
    EdgePolicy,
    background_spec,
    counts_as_background,
    is_border,
    near,
    probe_spec,
};
use crate::outline::{
    OutlineOptions,
    border_at,
    canvas,
    marked,
    marked_near,
    outline_marks,
    outline_pixel,
    outline_spec,
    pass_spec,
    passes_spec,
    unmarked,
    widen_spec,
};
use crate::raster::{Raster, transparent, col_of, lemma_coords, lemma_index, lemma_pad_shape, row_of};

verus! {

/// The canvas of a well-formed raster is well formed.
pub proof fn lemma_canvas_wf(g: Raster, o: OutlineOptions)
    requires
        g.wf(),
    ensures
        canvas(g, o).wf(),
{
    if o.pad {
        lemma_pad_shape(g);
    }
}

/// After `k` passes from no marks, the dimensions are kept and every pixel is the
/// outline colour where it is marked and its original value elsewhere.
pub proof fn lemma_passes_shape(
    g: Raster,
    bg: Background,
    edge: EdgePolicy,
    c: (u8, u8, u8),
    k: nat,
)
    requires
        g.wf(),
    ensures
        ({
            let s = passes_spec(g, unmarked(g.pixels.len()), bg, edge, c, k);
            &&& s.0.width == g.width
            &&& s.0.height == g.height
            &&& s.0.pixels.len() == g.pixels.len()
            &&& s.1.len() == g.pixels.len()
            &&& forall|i: int|
                0 <= i < g.pixels.len() ==> #[trigger] s.0.pixels[i] == if s.1[i] {
                    outline_pixel(c)
                } else {
                    g.pixels[i]
                }
        }),
    decreases k,
{
    if k > 0 {
        lemma_passes_shape(g, bg, edge, c, (k - 1) as nat);
    }
}

/// Marks are never removed by a pass.
pub proof fn lemma_marks_grow(
    g: Raster,
    bg: Background,
    edge: EdgePolicy,
    c: (u8, u8, u8),
    j: nat,
    k: nat,
)
    requires
        g.wf(),
        j <= k,
    ensures
        forall|i: int|
            0 <= i < g.pixels.len() && #[trigger] passes_spec(
                g,
                unmarked(g.pixels.len()),
                bg,
                edge,
                c,
                j,
            ).1[i] ==> passes_spec(g, unmarked(g.pixels.len()), bg, edge, c, k).1[i],
    decreases k,
{
    if j < k {
        lemma_marks_grow(g, bg, edge, c, j, (k - 1) as nat);
        lemma_passes_shape(g, bg, edge, c, (k - 1) as nat);
    }
}

/// Inside the canvas, a pixel counts as background during pass `k + 1` exactly
/// when it is background in the canvas or already marked.
pub proof fn lemma_counts_after_passes(
    g: Raster,
    bg: Background,
    edge: EdgePolicy,
    c: (u8, u8, u8),
    k: nat,
    x: int,
    y: int,
)
    requires
        g.wf(),
        g.in_bounds(x, y),
    ensures
        ({
            let s = passes_spec(g, unmarked(g.pixels.len()), bg, edge, c, k);
            counts_as_background(s.0, s.1, bg, x, y) == (background_spec(g.at(x, y), bg)
                || s.1[g.index(x, y)])
        }),
{
    lemma_passes_shape(g, bg, edge, c, k);
    lemma_index(g.width, g.height, x, y);
}

/// With at least one pass, a foreground pixel of the canvas next to an in-bounds
/// background pixel ends in the outline colour, under either background rule
/// (for a colour key: next to a pixel of the key colour).
pub proof fn law_border_recoloured(
    g: Raster,
    bg: Background,
    c: (u8, u8, u8),
    o: OutlineOptions,
    x: int,
    y: int,
    nx: int,
    ny: int,
)
    requires
        g.wf(),
        o.weight >= 1,
        canvas(g, o).in_bounds(x, y),
        !background_spec(canvas(g, o).at(x, y), bg),
        near(x, y, nx, ny),
        canvas(g, o).in_bounds(nx, ny),
        background_spec(canvas(g, o).at(nx, ny), bg),
    ensures
        outline_spec(g, bg, c, o).at(x, y) == outline_pixel(c),
{
    let cv = canvas(g, o);
    lemma_canvas_wf(g, o);
    let n = cv.pixels.len();
    let edge = o.edge_policy;
    let m0 = unmarked(n);
    lemma_index(cv.width, cv.height, x, y);
    lemma_index(cv.width, cv.height, nx, ny);
    let i = cv.index(x, y);
    let s1 = passes_spec(cv, m0, bg, edge, c, 1);
    let sk = passes_spec(cv, m0, bg, edge, c, o.weight as nat);
    lemma_passes_shape(cv, bg, edge, c, 0);
    lemma_passes_shape(cv, bg, edge, c, o.weight as nat);
    assert(probe_spec(cv, m0, bg, edge, nx, ny));
    assert(is_border(cv, m0, bg, edge, x, y));
    assert(border_at(cv, m0, bg, edge, i));
    assert(s1.1[i]);
    lemma_marks_grow(cv, bg, edge, c, 1, o.weight as nat);
    assert(sk.1[i]);
    assert(sk.0.pixels[i] == outline_pixel(c));
    if o.extra_wide {
        assert(marked(sk.0, sk.1, x, y));
        assert(near(x, y, x, y));
        assert(marked_near(sk.0, sk.1, x, y));
    }
}

/// With one pass and no widening, a foreground pixel whose eight neighbours all
/// lie in the canvas and are foreground keeps its value.
pub proof fn law_interior_kept(
    g: Raster,
    bg: Background,
    c: (u8, u8, u8),
    o: OutlineOptions,
    x: int,
    y: int,
)
    requires
        g.wf(),
        o.weight == 1,
        !o.extra_wide,
        canvas(g, o).in_bounds(x, y),
        !background_spec(canvas(g, o).at(x, y), bg),
        forall|nx: int, ny: int|
            #![trigger canvas(g, o).at(nx, ny)]
            near(x, y, nx, ny) ==> canvas(g, o).in_bounds(nx, ny) && !background_spec(
                canvas(g, o).at(nx, ny),
                bg,
            ),
    ensures
        outline_spec(g, bg, c, o).at(x, y) == canvas(g, o).at(x, y),
{
    let cv = canvas(g, o);
    lemma_canvas_wf(g, o);
    let n = cv.pixels.len();
    let edge = o.edge_policy;
    let m0 = unmarked(n);
    lemma_index(cv.width, cv.height, x, y);
    let i = cv.index(x, y);
    let s1 = passes_spec(cv, m0, bg, edge, c, 1);
    lemma_passes_shape(cv, bg, edge, c, 0);
    lemma_passes_shape(cv, bg, edge, c, 1);
    if is_border(cv, m0, bg, edge, x, y) {
        let (nx, ny) = choose|nx: int, ny: int|
            near(x, y, nx, ny) && #[trigger] probe_spec(cv, m0, bg, edge, nx, ny);
        let p = cv.at(nx, ny);
        assert(cv.in_bounds(nx, ny));
        assert(!background_spec(p, bg));
        lemma_index(cv.width, cv.height, nx, ny);
        assert(!m0[cv.index(nx, ny)]);
        assert(false);
    }
    assert(!border_at(cv, m0, bg, edge, i));
    assert(!s1.1[i]);
    assert(s1.0.pixels[i] == cv.pixels[i]);
}

/// Marks over rasters of equal dimensions name the same pixels.
proof fn lemma_marked_near_dims(a: Raster, b: Raster, marks: Seq<bool>, x: int, y: int)
    requires
        a.width == b.width,
        a.height == b.height,
    ensures
        marked_near(a, marks, x, y) == marked_near(b, marks, x, y),
{
    assert forall|qx: int, qy: int| #[trigger] marked(a, marks, qx, qy) == marked(b, marks, qx, qy) by {}
    if marked_near(a, marks, x, y) {
        let (qx, qy) = choose|qx: int, qy: int| near(x, y, qx, qy) && #[trigger] marked(a, marks, qx, qy);
        assert(marked(b, marks, qx, qy));
    }
    if marked_near(b, marks, x, y) {
        let (qx, qy) = choose|qx: int, qy: int| near(x, y, qx, qy) && #[trigger] marked(b, marks, qx, qy);
        assert(marked(a, marks, qx, qy));
    }
}

/// Widening leaves the outline set of the passes as it is and recolours exactly
/// its dilation: every in-bounds pixel within one step (in the 3 by 3 sense) of an
/// outline pixel. Without widening the outline pixels alone take the colour. The
/// widened set contains the outline set.
pub proof fn law_widening(g: Raster, bg: Background, c: (u8, u8, u8), o: OutlineOptions, x: int, y: int)
    requires
        g.wf(),
        canvas(g, o).in_bounds(x, y),
    ensures
        ({
            let cv = canvas(g, o);
            let narrow = OutlineOptions { extra_wide: false, ..o };
            let wide = OutlineOptions { extra_wide: true, ..o };
            let m = outline_marks(g, bg, c, o);
            &&& outline_marks(g, bg, c, narrow) == m
            &&& outline_marks(g, bg, c, wide) == m
            &&& m[cv.index(x, y)] ==> marked_near(cv, m, x, y)
            &&& outline_spec(g, bg, c, narrow).at(x, y) == if m[cv.index(x, y)] {
                outline_pixel(c)
            } else {
                cv.at(x, y)
            }
            &&& outline_spec(g, bg, c, wide).at(x, y) == if marked_near(cv, m, x, y) {
                outline_pixel(c)
            } else {
                outline_spec(g, bg, c, narrow).at(x, y)
            }
        }),
{
    let cv = canvas(g, o);
    let wide = OutlineOptions { extra_wide: true, ..o };
    lemma_canvas_wf(g, o);
    let n = cv.pixels.len();
    let edge = o.edge_policy;
    let m0 = unmarked(n);
    lemma_index(cv.width, cv.height, x, y);
    let i = cv.index(x, y);
    let s = passes_spec(cv, m0, bg, edge, c, o.weight as nat);
    lemma_passes_shape(cv, bg, edge, c, o.weight as nat);
    if s.1[i] {
        assert(near(x, y, x, y));
        assert(marked(cv, s.1, x, y));
    }
    lemma_marked_near_dims(s.0, cv, s.1, x, y);
    assert(outline_spec(g, bg, c, wide) == widen_spec(s.0, s.1, c));
}

/// One more pass keeps every outline pixel; and once there is an outline, the
/// pixels that the extra pass adds are exactly the foreground pixels, not yet in
/// the outline, that have an outline pixel among their eight neighbours: the ring
/// grows by one rank.
pub proof fn law_weight_step(g: Raster, bg: Background, c: (u8, u8, u8), o: OutlineOptions, x: int, y: int)
    requires
        g.wf(),
        o.weight < u32::MAX,
        canvas(g, o).in_bounds(x, y),
    ensures
        ({
            let cv = canvas(g, o);
            let i = cv.index(x, y);
            let more = OutlineOptions { weight: (o.weight + 1) as u32, ..o };
            let m = outline_marks(g, bg, c, o);
            let m2 = outline_marks(g, bg, c, more);
            &&& m[i] ==> m2[i]
            &&& o.weight >= 1 ==> ((m2[i] && !m[i]) <==> (!background_spec(cv.at(x, y), bg)
                && !m[i] && marked_near(cv, m, x, y)))
        }),
{
    let cv = canvas(g, o);
    lemma_canvas_wf(g, o);
    let n = cv.pixels.len();
    let edge = o.edge_policy;
    let m0 = unmarked(n);
    let k = o.weight as nat;
    lemma_index(cv.width, cv.height, x, y);
    let i = cv.index(x, y);
    let s = passes_spec(cv, m0, bg, edge, c, k);
    let s2 = passes_spec(cv, m0, bg, edge, c, k + 1);
    let s1 = passes_spec(cv, m0, bg, edge, c, 1);
    lemma_passes_shape(cv, bg, edge, c, 0);
    lemma_passes_shape(cv, bg, edge, c, k);
    lemma_passes_shape(cv, bg, edge, c, k + 1);
    assert(s2 == pass_spec(s.0, s.1, bg, edge, c));
    assert(s2.1[i] == (s.1[i] || border_at(s.0, s.1, bg, edge, i)));
    assert(border_at(s.0, s.1, bg, edge, i) == is_border(s.0, s.1, bg, edge, x, y));
    lemma_counts_after_passes(cv, bg, edge, c, k, x, y);
    if k >= 1 {
        if s2.1[i] && !s.1[i] {
            let (nx, ny) = choose|nx: int, ny: int|
                near(x, y, nx, ny) && #[trigger] probe_spec(s.0, s.1, bg, edge, nx, ny);
            if cv.in_bounds(nx, ny) {
                lemma_counts_after_passes(cv, bg, edge, c, k, nx, ny);
                lemma_index(cv.width, cv.height, nx, ny);
                if s.1[cv.index(nx, ny)] {
                    assert(marked(cv, s.1, nx, ny));
                } else {
                    assert(probe_spec(cv, m0, bg, edge, nx, ny));
                    assert(is_border(cv, m0, bg, edge, x, y));
                    assert(s1.1[i]);
                    lemma_marks_grow(cv, bg, edge, c, 1, k);
                    assert(false);
                }
            } else {
                assert(probe_spec(cv, m0, bg, edge, nx, ny));
                assert(is_border(cv, m0, bg, edge, x, y));
                assert(s1.1[i]);
                lemma_marks_grow(cv, bg, edge, c, 1, k);
                assert(false);
            }
        }
        if !background_spec(cv.at(x, y), bg) && !s.1[i] && marked_near(cv, s.1, x, y) {
            let (qx, qy) = choose|qx: int, qy: int| near(x, y, qx, qy) && #[trigger] marked(cv, s.1, qx, qy);
            lemma_counts_after_passes(cv, bg, edge, c, k, qx, qy);
            assert(probe_spec(s.0, s.1, bg, edge, qx, qy));
            assert(is_border(s.0, s.1, bg, edge, x, y));
        }
    }
}

/// On a single pixel, with no neighbour inside the canvas and the skip policy,
/// no pass finds a border.
proof fn lemma_single_pixel_passes(g: Raster, bg: Background, c: (u8, u8, u8), k: nat)
    requires
        g.wf(),
        g.width == 1,
        g.height == 1,
        !background_spec(g.at(0, 0), bg),
    ensures
        passes_spec(g, unmarked(1), bg, EdgePolicy::Skip, c, k).1 =~= unmarked(1),
    decreases k,
{
    let edge = EdgePolicy::Skip;
    if k > 0 {
        let kp = (k - 1) as nat;
        lemma_single_pixel_passes(g, bg, c, kp);
        lemma_passes_shape(g, bg, edge, c, kp);
        let s = passes_spec(g, unmarked(1), bg, edge, c, kp);
        assert(s.0.pixels[0] == g.pixels[0]);
        if is_border(s.0, s.1, bg, edge, 0, 0) {
            let (nx, ny) = choose|nx: int, ny: int|
                near(0, 0, nx, ny) && #[trigger] probe_spec(s.0, s.1, bg, edge, nx, ny);
            if s.0.in_bounds(nx, ny) {
                assert(nx == 0 && ny == 0);
            }
            assert(false);
        }
        assert(col_of(1, 0) == 0 && row_of(1, 0) == 0);
    }
}

/// A one-pixel foreground image under the skip policy: without padding nothing
/// changes, whatever the passes and widening; with padding, at least one pass and
/// a background rule under which the transparent padding is background, the pixel
/// takes the outline colour.
pub proof fn law_single_pixel(g: Raster, bg: Background, c: (u8, u8, u8), o: OutlineOptions)
    requires
        g.wf(),
        g.width == 1,
        g.height == 1,
        !background_spec(g.at(0, 0), bg),
        o.edge_policy is Skip,
    ensures
        !o.pad ==> outline_spec(g, bg, c, o) == g,
        o.pad && o.weight >= 1 && background_spec(transparent(), bg) ==> outline_spec(g, bg, c, o).at(
            1,
            1,
        ) == outline_pixel(c),
{
    if !o.pad {
        let k = o.weight as nat;
        lemma_single_pixel_passes(g, bg, c, k);
        lemma_passes_shape(g, bg, EdgePolicy::Skip, c, k);
        let s = passes_spec(g, unmarked(1), bg, EdgePolicy::Skip, c, k);
        assert(s.0.pixels =~= g.pixels);
        if o.extra_wide {
            let t = widen_spec(s.0, s.1, c);
            if marked_near(s.0, s.1, 0, 0) {
                let (qx, qy) = choose|qx: int, qy: int| near(0, 0, qx, qy) && #[trigger] marked(s.0, s.1, qx, qy);
                assert(qx == 0 && qy == 0);
                assert(false);
            }
            assert(col_of(1, 0) == 0 && row_of(1, 0) == 0);
            assert(t.pixels =~= g.pixels);
        }
    }
    if o.pad && o.weight >= 1 && background_spec(transparent(), bg) {
        lemma_pad_shape(g);
        assert(g.in_bounds(0, 0));
        assert(canvas(g, o).at(1, 1) == g.at(0, 0));
        assert(canvas(g, o).at(0, 0) == transparent());
        law_border_recoloured(g, bg, c, o, 1, 1, 0, 0);
    }
}

/// The pixel at `(x, y)` was recoloured by a one-pass run with outline marks `m`.
spec fn recoloured(cv: Raster, m: Seq<bool>, wide: bool, x: int, y: int) -> bool {
    m[cv.index(x, y)] || (wide && marked_near(cv, m, x, y))
}

/// The result of a one-pass run, pixel by pixel.
proof fn lemma_once(g: Raster, bg: Background, c: (u8, u8, u8), o: OutlineOptions, x: int, y: int)
    requires
        g.wf(),
        o.weight == 1,
        canvas(g, o).in_bounds(x, y),
    ensures
        ({
            let cv = canvas(g, o);
            let h = outline_spec(g, bg, c, o);
            let m = outline_marks(g, bg, c, o);
            &&& h.width == cv.width
            &&& h.height == cv.height
            &&& h.pixels.len() == cv.pixels.len()
            &&& m.len() == cv.pixels.len()
            &&& m[cv.index(x, y)] == is_border(cv, unmarked(cv.pixels.len()), bg, o.edge_policy, x, y)
            &&& h.at(x, y) == if recoloured(cv, m, o.extra_wide, x, y) {
                outline_pixel(c)
            } else {
                cv.at(x, y)
            }
        }),
{
    let cv = canvas(g, o);
    lemma_canvas_wf(g, o);
    lemma_index(cv.width, cv.height, x, y);
    lemma_passes_shape(cv, bg, o.edge_policy, c, 0);
    lemma_passes_shape(cv, bg, o.edge_policy, c, 1);
    law_widening(g, bg, c, o, x, y);
    let narrow = OutlineOptions { extra_wide: false, ..o };
    let wide = OutlineOptions { extra_wide: true, ..o };
    if o.extra_wide {
        assert(o == wide);
    } else {
        assert(o == narrow);
    }
}

/// What the second run reports as background it reports so of the first run's
/// canvas too: the first run only wrote the outline colour, which is foreground.
proof fn lemma_probe_back(
    g: Raster,
    bg: Background,
    c: (u8, u8, u8),
    o: OutlineOptions,
    nx: int,
    ny: int,
)
    requires
        g.wf(),
        o.weight == 1,
        !background_spec(outline_pixel(c), bg),
        probe_spec(
            outline_spec(g, bg, c, o),
            unmarked(canvas(g, o).pixels.len()),
            bg,
            o.edge_policy,
            nx,
            ny,
        ),
    ensures
        probe_spec(canvas(g, o), unmarked(canvas(g, o).pixels.len()), bg, o.edge_policy, nx, ny),
        canvas(g, o).in_bounds(nx, ny) ==> !recoloured(
            canvas(g, o),
            outline_marks(g, bg, c, o),
            o.extra_wide,
            nx,
            ny,
        ),
{
    let cv = canvas(g, o);
    lemma_canvas_wf(g, o);
    lemma_passes_shape(cv, bg, o.edge_policy, c, 1);
    if cv.in_bounds(nx, ny) {
        lemma_once(g, bg, c, o, nx, ny);
        lemma_index(cv.width, cv.height, nx, ny);
    }
}

/// A pixel that the second run finds on the border already has the outline colour.
proof fn lemma_again_border(g: Raster, bg: Background, c: (u8, u8, u8), o: OutlineOptions, x: int, y: int)
    requires
        g.wf(),
        o.weight == 1,
        !background_spec(outline_pixel(c), bg),
        is_border(
            outline_spec(g, bg, c, o),
            unmarked(canvas(g, o).pixels.len()),
            bg,
            o.edge_policy,
            x,
            y,
        ),
    ensures
        outline_spec(g, bg, c, o).at(x, y) == outline_pixel(c),
        !background_spec(canvas(g, o).at(x, y), bg) || recoloured(
            canvas(g, o),
            outline_marks(g, bg, c, o),
            o.extra_wide,
            x,
            y,
        ),
{
    let cv = canvas(g, o);
    let h = outline_spec(g, bg, c, o);
    let m0 = unmarked(cv.pixels.len());
    lemma_canvas_wf(g, o);
    lemma_passes_shape(cv, bg, o.edge_policy, c, 1);
    assert(h.width == cv.width && h.height == cv.height);
    lemma_once(g, bg, c, o, x, y);
    lemma_index(cv.width, cv.height, x, y);
    let (nx, ny) = choose|nx: int, ny: int|
        near(x, y, nx, ny) && #[trigger] probe_spec(h, m0, bg, o.edge_policy, nx, ny);
    lemma_probe_back(g, bg, c, o, nx, ny);
    if h.at(x, y) != outline_pixel(c) {
        assert(is_border(cv, m0, bg, o.edge_policy, x, y));
    }
}

/// Outlining again with one pass (and no new padding) an image that one pass has
/// outlined changes no foreground pixel, provided the outline colour is itself
/// foreground: the border it finds is the outline already drawn.
pub proof fn law_outline_again(g: Raster, bg: Background, c: (u8, u8, u8), o: OutlineOptions, x: int, y: int)
    requires
        g.wf(),
        o.weight == 1,
        !background_spec(outline_pixel(c), bg),
        outline_spec(g, bg, c, o).in_bounds(x, y),
        !background_spec(outline_spec(g, bg, c, o).at(x, y), bg),
    ensures
        outline_spec(outline_spec(g, bg, c, o), bg, c, OutlineOptions { pad: false, ..o }).at(x, y)
            == outline_spec(g, bg, c, o).at(x, y),
{
    let cv = canvas(g, o);
    let h = outline_spec(g, bg, c, o);
    let o2 = OutlineOptions { pad: false, ..o };
    let m0 = unmarked(cv.pixels.len());
    let m = outline_marks(g, bg, c, o);
    let edge = o.edge_policy;
    lemma_canvas_wf(g, o);
    lemma_passes_shape(cv, bg, o.edge_policy, c, 1);
    assert(h.width == cv.width && h.height == cv.height);
    lemma_once(g, bg, c, o, x, y);
    lemma_index(cv.width, cv.height, x, y);
    assert(h.wf());
    assert(canvas(h, o2) == h);
    lemma_passes_shape(h, bg, edge, c, 0);
    lemma_passes_shape(h, bg, edge, c, 1);
    let t = passes_spec(h, m0, bg, edge, c, 1);
    assert(t == pass_spec(h, m0, bg, edge, c));
    assert(border_at(h, m0, bg, edge, h.index(x, y)) == is_border(h, m0, bg, edge, x, y));
    if is_border(h, m0, bg, edge, x, y) {
        lemma_again_border(g, bg, c, o, x, y);
    }
    if o.extra_wide {
        lemma_marked_near_dims(t.0, h, t.1, x, y);
        if marked_near(h, t.1, x, y) && h.at(x, y) != outline_pixel(c) {
            let (qx, qy) = choose|qx: int, qy: int| near(x, y, qx, qy) && #[trigger] marked(h, t.1, qx, qy);
            lemma_index(cv.width, cv.height, qx, qy);
            assert(border_at(h, m0, bg, edge, h.index(qx, qy)) == is_border(h, m0, bg, edge, qx, qy));
            assert(is_border(h, m0, bg, edge, qx, qy));
            lemma_again_border(g, bg, c, o, qx, qy);
            lemma_once(g, bg, c, o, qx, qy);
            assert(near(qx, qy, x, y));
            if m[cv.index(qx, qy)] {
                assert(marked(cv, m, qx, qy));
                assert(false);
            }
            let (nx, ny) = choose|nx: int, ny: int|
                near(qx, qy, nx, ny) && #[trigger] probe_spec(h, m0, bg, edge, nx, ny);
            lemma_probe_back(g, bg, c, o, nx, ny);
            if !background_spec(cv.at(qx, qy), bg) {
                assert(is_border(cv, m0, bg, edge, qx, qy));
                assert(false);
            }
            assert(probe_spec(cv, m0, bg, edge, qx, qy));
            assert(is_border(cv, m0, bg, edge, x, y));
            assert(false);
        }
    }
}

/// Without widening, outlining again with one pass (and no new padding) an image
/// that one pass has outlined changes nothing at all, provided the outline colour
/// is itself foreground.
pub proof fn law_outline_again_unchanged(g: Raster, bg: Background, c: (u8, u8, u8), o: OutlineOptions)
    requires
        g.wf(),
        o.weight == 1,
        !o.extra_wide,
        !background_spec(outline_pixel(c), bg),
    ensures
        outline_spec(outline_spec(g, bg, c, o), bg, c, OutlineOptions { pad: false, ..o })
            == outline_spec(g, bg, c, o),
{
    let cv = canvas(g, o);
    let h = outline_spec(g, bg, c, o);
    let o2 = OutlineOptions { pad: false, ..o };
    let m0 = unmarked(cv.pixels.len());
    let edge = o.edge_policy;
    lemma_canvas_wf(g, o);
    lemma_passes_shape(cv, bg, edge, c, 1);
    assert(h.width == cv.width && h.height == cv.height && h.wf());
    assert(canvas(h, o2) == h);
    lemma_passes_shape(h, bg, edge, c, 0);
    let t = passes_spec(h, m0, bg, edge, c, 1);
    assert(t == pass_spec(h, m0, bg, edge, c));
    assert(outline_spec(h, bg, c, o2) == t.0);
    assert forall|i: int| 0 <= i < h.pixels.len() implies t.0.pixels[i] == h.pixels[i] by {
        lemma_coords(h.width, h.height, i);
        let (x, y) = (col_of(h.width, i), row_of(h.width, i));
        lemma_index(h.width, h.height, x, y);
        if border_at(h, m0, bg, edge, i) {
            lemma_again_border(g, bg, c, o, x, y);
        }
    }
    assert(t.0.pixels =~= h.pixels);
}

} // verus!
