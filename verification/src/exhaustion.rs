//! How long refinement can go on: every step uses up some of a bound that
//! the size of the image sets, so that enough steps leave nothing but
//! single pixels.

use vstd::multiset::Multiset;
use vstd::prelude::*;
use vstd::set_lib::{lemma_int_range, lemma_len_subset, lemma_map_size, set_int_range};
use crate::chunk::Chunk;
use crate::metric::ErrCalc;
use crate::raster::{Raster, raster_height, raster_width};
use crate::refinement::{
    Approximation, exhausted_is_fully_subdivided, fully_subdivided, refined, refinement_keeps_valid,
    step, step_on, tiles,
};

verus! {

/// A bound on the number of steps that refinement can still take: two for
/// every pixel that is not yet set aside, less one for every chunk of the
/// frontier.
pub open spec fn step_bound(a: Approximation, img: Raster) -> int {
    2 * (raster_width(img) * raster_height(img) - a.finished.len()) - a.frontier.len()
}

/// The bound of a first approximation, one chunk in the frontier and none
/// set aside, is twice the number of pixels less one.
pub proof fn seed_bound(a: Approximation, img: Raster, c: Chunk)
    requires
        a.frontier == Multiset::singleton(c),
        a.finished == Multiset::<Chunk>::empty(),
    ensures
        step_bound(a, img) == 2 * (raster_width(img) * raster_height(img)) - 1,
{
}

/// Chunks of which none occurs twice are as many as there are different
/// ones.
proof fn lemma_distinct_chunks_count(m: Multiset<Chunk>)
    requires
        forall|c: Chunk| #[trigger] m.count(c) <= 1,
    ensures
        m.dom().finite(),
        m.dom().len() == m.len(),
    decreases m.len(),
{
    broadcast use vstd::set::group_set_axioms;

    if m.len() == 0 {
        assert(m.dom() =~= Set::<Chunk>::empty());
    } else {
        // Taking one chunk away leaves one fewer, of which still none
        // occurs twice.
        let c = m.choose();
        let rest = m.remove(c);
        assert forall|d: Chunk| #[trigger] rest.count(d) <= 1 by {}
        lemma_distinct_chunks_count(rest);
        assert(m.dom() =~= rest.dom().insert(c));
    }
}

/// The position of the top left pixel of a chunk, counted row by row in
/// an image `width` pixels wide.
pub open spec fn corner_index(c: Chunk, width: int) -> int {
    c.y * width + c.x
}

/// A tiling has at most as many chunks as the image has pixels.
pub proof fn lemma_chunks_at_most_pixels(m: Multiset<Chunk>, img: Raster, metric: ErrCalc)
    requires
        tiles(m, img, metric),
    ensures
        m.len() <= raster_width(img) * raster_height(img),
{
    let w = raster_width(img) as int;
    let h = raster_height(img) as int;
    lemma_distinct_chunks_count(m);
    let chunks = m.dom();
    let index = |c: Chunk| corner_index(c, w);
    let corners = chunks.map(index);
    // Every chunk covers its own corner, which lies inside the image.
    assert forall|c: Chunk| chunks.contains(c) implies 0 <= c.x < w && 0 <= c.y < h && c.covers(
        c.x as int,
        c.y as int,
    ) by {}
    // Chunks with the same corner share a pixel, so they are one chunk.
    assert forall|c1: Chunk, c2: Chunk|
        chunks.contains(c1) && chunks.contains(c2) && #[trigger] index(c1) == #[trigger] index(
            c2,
        ) implies c1 == c2 by {
        let (x1, y1, x2, y2) = (c1.x as int, c1.y as int, c2.x as int, c2.y as int);
        assert(x1 == x2 && y1 == y2) by (nonlinear_arith)
            requires
                y1 * w + x1 == y2 * w + x2,
                0 <= x1 < w,
                0 <= x2 < w,
        ;
    }
    lemma_map_size(chunks, corners, index);
    // The corners are among the positions of the pixels, of which there are
    // `w * h`.
    assert(0 <= w * h) by (nonlinear_arith)
        requires
            0 <= w,
            0 <= h,
    ;
    lemma_int_range(0, w * h);
    assert forall|i: int| corners.contains(i) implies set_int_range(0, w * h).contains(i) by {
        let c = choose|c: Chunk| chunks.contains(c) && i == index(c);
        let (x, y) = (c.x as int, c.y as int);
        assert(0 <= y * w + x < w * h) by (nonlinear_arith)
            requires
                0 <= x < w,
                0 <= y < h,
        ;
    }
    lemma_len_subset(corners, set_int_range(0, w * h));
}

/// The bound of a valid approximation is at least the number of chunks in
/// its frontier.
pub proof fn lemma_bound_covers_frontier(img: Raster, metric: ErrCalc, a: Approximation)
    requires
        a.valid(img, metric),
    ensures
        a.frontier.len() <= step_bound(a, img),
{
    lemma_chunks_at_most_pixels(a.chunks(), img, metric);
}

/// A refinement step lowers the bound.
pub proof fn lemma_step_lowers_bound(
    img: Raster,
    metric: ErrCalc,
    a: Approximation,
    b: Approximation,
    top: Chunk,
)
    requires
        a.valid(img, metric),
        step_on(img, metric, a, b, top),
    ensures
        step_bound(b, img) < step_bound(a, img),
{
    // The frontier loses one chunk and gains its children, of which there
    // are two at least unless the chunk is set aside.
    let kids = top.children(img, metric);
    assert(a.chunks().count(top) > 0);
    kids.to_multiset_ensures();
    assert(b.frontier.len() == a.frontier.len() - 1 + kids.len());
}

/// Each step of a refinement lowers the bound by one at least.
pub proof fn lemma_refinement_lowers_bound(
    img: Raster,
    metric: ErrCalc,
    a: Approximation,
    b: Approximation,
    n: nat,
)
    requires
        a.valid(img, metric),
        refined(img, metric, a, b, n),
    ensures
        step_bound(b, img) + n <= step_bound(a, img),
    decreases n,
{
    if n > 0 {
        let mid = choose|mid: Approximation|
            refined(img, metric, a, mid, (n - 1) as nat) && #[trigger] step(img, metric, mid, b);
        lemma_refinement_lowers_bound(img, metric, a, mid, (n - 1) as nat);
        refinement_keeps_valid(img, metric, a, mid, (n - 1) as nat);
        let top = choose|top: Chunk| step_on(img, metric, mid, b, top);
        lemma_step_lowers_bound(img, metric, mid, b, top);
    }
}

/// Refinement ends: steps taken and chunks left in the frontier together
/// never exceed the bound from which refinement set out.
pub proof fn refinement_is_bounded(
    img: Raster,
    metric: ErrCalc,
    a: Approximation,
    b: Approximation,
    n: nat,
)
    requires
        a.valid(img, metric),
        refined(img, metric, a, b, n),
    ensures
        n + b.frontier.len() <= step_bound(a, img),
{
    lemma_refinement_lowers_bound(img, metric, a, b, n);
    refinement_keeps_valid(img, metric, a, b, n);
    lemma_bound_covers_frontier(img, metric, b);
}

/// Refinement that is given as many steps as the bound allows, and stops
/// before them only on an empty frontier, leaves nothing but single
/// pixels.
pub proof fn enough_steps_subdivide_fully(
    img: Raster,
    metric: ErrCalc,
    a: Approximation,
    b: Approximation,
    n: nat,
    depth: nat,
)
    requires
        a.valid(img, metric),
        refined(img, metric, a, b, n),
        n == depth || b.frontier.len() == 0,
        step_bound(a, img) <= depth,
    ensures
        b.frontier.len() == 0,
        fully_subdivided(b.chunks()),
{
    refinement_is_bounded(img, metric, a, b, n);
    refinement_keeps_valid(img, metric, a, b, n);
    exhausted_is_fully_subdivided(img, metric, b);
}

} // verus!
