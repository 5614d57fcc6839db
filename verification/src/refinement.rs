//! Refinement as a relation between approximations: what a tiling is,
//! what one step does to it, and what any number of steps keep.

use vstd::multiset::Multiset;
use vstd::prelude::*;
use crate::chunk::{Chunk, lemma_rank_tells_apart, rank};
use crate::metric::ErrCalc;
use crate::queue::lemma_empty_holds_nothing;
use crate::raster::{Raster, in_raster};

verus! {

/// The chunks of an approximation, as the refinement sees them.
pub struct Approximation {
    /// Chunks that may still be split.
    pub frontier: Multiset<Chunk>,
    /// Single pixels that were taken from the frontier.
    pub finished: Multiset<Chunk>,
}

impl Approximation {
    /// Every chunk of the approximation.
    pub open spec fn chunks(self) -> Multiset<Chunk> {
        self.frontier.add(self.finished)
    }

    /// Whether the approximation is one of `img` under `metric`: its
    /// chunks tile the image, and those set aside as finished are single
    /// pixels.
    pub open spec fn valid(self, img: Raster, metric: ErrCalc) -> bool {
        &&& tiles(self.chunks(), img, metric)
        &&& forall|c: Chunk| #[trigger] self.finished.count(c) > 0 ==> c.is_terminal()
    }
}

/// Whether the chunks of `m` tile the image: each is the evaluation of its
/// rectangle, none occurs twice, no pixel lies in two of them, and every
/// pixel of the image lies in one.
pub open spec fn tiles(m: Multiset<Chunk>, img: Raster, metric: ErrCalc) -> bool {
    &&& forall|c: Chunk| #[trigger] m.count(c) > 0 ==> c.evaluates(img, metric)
    &&& forall|c: Chunk| #[trigger] m.count(c) <= 1
    &&& forall|a: Chunk, b: Chunk, px: int, py: int|
        m.count(a) > 0 && m.count(b) > 0 && #[trigger] a.covers(px, py) && #[trigger] b.covers(
            px,
            py,
        ) ==> a == b
    &&& forall|px: int, py: int| #[trigger]
        in_raster(img, px, py) ==> exists|c: Chunk| m.count(c) > 0 && #[trigger] c.covers(px, py)
}

/// Whether the chunks of a sequence partition the image: each lies inside
/// it, no two share a pixel, and every pixel of the image lies in one.
pub open spec fn partitions(s: Seq<Chunk>, img: Raster) -> bool {
    &&& forall|i: int| 0 <= i < s.len() ==> (#[trigger] s[i]).within(img)
    &&& forall|i: int, j: int, px: int, py: int|
        0 <= i < j < s.len() ==> !(#[trigger] s[i].covers(px, py) && #[trigger] s[j].covers(
            px,
            py,
        ))
    &&& forall|px: int, py: int| #[trigger]
        in_raster(img, px, py) ==> exists|i: int| 0 <= i < s.len() && #[trigger] s[i].covers(px, py)
}

/// Whether every chunk is a single pixel, so that nothing is left to
/// split.
pub open spec fn fully_subdivided(m: Multiset<Chunk>) -> bool {
    forall|c: Chunk| #[trigger] m.count(c) > 0 ==> c.is_terminal()
}

/// A sequence that holds the chunks of a tiling partitions the image.
pub proof fn lemma_tiling_partitions(s: Seq<Chunk>, img: Raster, metric: ErrCalc)
    requires
        tiles(s.to_multiset(), img, metric),
    ensures
        partitions(s, img),
{
    let m = s.to_multiset();
    s.to_multiset_ensures();
    s.lemma_multiset_has_no_duplicates_conv();
    assert forall|i: int| 0 <= i < s.len() implies m.count(#[trigger] s[i]) > 0 by {
        assert(s.contains(s[i]));
    }
    assert forall|px: int, py: int| #[trigger] in_raster(img, px, py) implies exists|i: int|
        0 <= i < s.len() && #[trigger] s[i].covers(px, py) by {
        let c = choose|c: Chunk| m.count(c) > 0 && #[trigger] c.covers(px, py);
        let i = choose|i: int| 0 <= i < s.len() && s[i] == c;
    }
}

/// Whether `b` comes from `a` by one refinement step that takes `top`:
/// the chunk of highest rank leaves the frontier, and its children enter
/// it; a single pixel has none and is kept as finished. No chunk of the
/// frontier has a larger error than the one of highest rank.
pub open spec fn step_on(
    img: Raster,
    metric: ErrCalc,
    a: Approximation,
    b: Approximation,
    top: Chunk,
) -> bool {
    &&& a.frontier.count(top) > 0
    &&& forall|c: Chunk| a.frontier.count(c) > 0 ==> rank(c) <= rank(top)
    &&& b.frontier == a.frontier.remove(top).add(top.children(img, metric).to_multiset())
    &&& b.finished == if top.is_terminal() {
        a.finished.insert(top)
    } else {
        a.finished
    }
}

/// Whether `b` comes from `a` by one refinement step.
pub open spec fn step(img: Raster, metric: ErrCalc, a: Approximation, b: Approximation) -> bool {
    exists|top: Chunk| step_on(img, metric, a, b, top)
}

/// Whether `b` comes from `a` by exactly `n` refinement steps.
pub open spec fn refined(
    img: Raster,
    metric: ErrCalc,
    a: Approximation,
    b: Approximation,
    n: nat,
) -> bool
    decreases n,
{
    if n == 0 {
        a == b
    } else {
        exists|mid: Approximation|
            refined(img, metric, a, mid, (n - 1) as nat) && #[trigger] step(img, metric, mid, b)
    }
}

/// One more step after `n` steps makes `n + 1` steps.
pub proof fn lemma_refined_extends(
    img: Raster,
    metric: ErrCalc,
    a: Approximation,
    mid: Approximation,
    b: Approximation,
    n: nat,
)
    requires
        refined(img, metric, a, mid, n),
        step(img, metric, mid, b),
    ensures
        refined(img, metric, a, b, n + 1),
{
}

/// Whether refinement of up to `depth` steps from `a` ends in `b`: `b`
/// comes from `a` by `depth` steps, or by fewer that leave the frontier
/// empty.
pub open spec fn refines_within(
    img: Raster,
    metric: ErrCalc,
    a: Approximation,
    b: Approximation,
    depth: nat,
) -> bool {
    exists|n: nat|
        n <= depth && #[trigger] refined(img, metric, a, b, n) && (n == depth || b.frontier.len()
            == 0)
}

/// Where refinement of up to `depth` steps from `a` ends.
pub open spec fn refinement_of(img: Raster, metric: ErrCalc, a: Approximation, depth: nat) -> Approximation {
    choose|b: Approximation| refines_within(img, metric, a, b, depth)
}

/// A step leads to one approximation only: the chunk it takes is the one
/// of highest rank, and no two chunks have one rank.
pub proof fn step_is_determined(
    img: Raster,
    metric: ErrCalc,
    a: Approximation,
    b1: Approximation,
    b2: Approximation,
)
    requires
        step(img, metric, a, b1),
        step(img, metric, a, b2),
    ensures
        b1 == b2,
{
    let top1 = choose|top: Chunk| step_on(img, metric, a, b1, top);
    let top2 = choose|top: Chunk| step_on(img, metric, a, b2, top);
    assert(rank(top1) <= rank(top2) && rank(top2) <= rank(top1));
    lemma_rank_tells_apart(top1, top2);
}

/// From an empty frontier no step leads anywhere.
pub proof fn lemma_step_needs_frontier(
    img: Raster,
    metric: ErrCalc,
    a: Approximation,
    b: Approximation,
)
    requires
        step(img, metric, a, b),
    ensures
        a.frontier.len() > 0,
{
    let top = choose|top: Chunk| step_on(img, metric, a, b, top);
    assert(a.frontier.count(top) > 0);
}

/// A number of steps leads to one approximation only.
pub proof fn refinement_is_determined(
    img: Raster,
    metric: ErrCalc,
    a: Approximation,
    b1: Approximation,
    b2: Approximation,
    n: nat,
)
    requires
        refined(img, metric, a, b1, n),
        refined(img, metric, a, b2, n),
    ensures
        b1 == b2,
    decreases n,
{
    if n > 0 {
        let mid1 = choose|mid: Approximation|
            refined(img, metric, a, mid, (n - 1) as nat) && #[trigger] step(img, metric, mid, b1);
        let mid2 = choose|mid: Approximation|
            refined(img, metric, a, mid, (n - 1) as nat) && #[trigger] step(img, metric, mid, b2);
        refinement_is_determined(img, metric, a, mid1, mid2, (n - 1) as nat);
        step_is_determined(img, metric, mid1, b1, b2);
    }
}

/// Steps after steps are steps: `n1` from `a` to `mid` and `n2` from there
/// to `b` are `n1 + n2` from `a` to `b`.
pub proof fn lemma_refined_joins(
    img: Raster,
    metric: ErrCalc,
    a: Approximation,
    mid: Approximation,
    b: Approximation,
    n1: nat,
    n2: nat,
)
    requires
        refined(img, metric, a, mid, n1),
        refined(img, metric, mid, b, n2),
    ensures
        refined(img, metric, a, b, n1 + n2),
    decreases n2,
{
    if n2 > 0 {
        let last = choose|last: Approximation|
            refined(img, metric, mid, last, (n2 - 1) as nat) && #[trigger] step(
                img,
                metric,
                last,
                b,
            );
        lemma_refined_joins(img, metric, a, mid, last, n1, (n2 - 1) as nat);
        lemma_refined_extends(img, metric, a, last, b, (n1 + n2 - 1) as nat);
    }
}

/// The approximation that `n` steps from `a` to `b` pass after the first
/// `k` of them.
pub proof fn lemma_refined_passes(
    img: Raster,
    metric: ErrCalc,
    a: Approximation,
    b: Approximation,
    n: nat,
    k: nat,
) -> (mid: Approximation)
    requires
        refined(img, metric, a, b, n),
        k <= n,
    ensures
        refined(img, metric, a, mid, k),
        refined(img, metric, mid, b, (n - k) as nat),
    decreases n,
{
    if k == n {
        b
    } else {
        let last = choose|last: Approximation|
            refined(img, metric, a, last, (n - 1) as nat) && #[trigger] step(img, metric, last, b);
        let mid = lemma_refined_passes(img, metric, a, last, (n - 1) as nat, k);
        lemma_refined_extends(img, metric, mid, last, b, (n - 1 - k) as nat);
        mid
    }
}

/// Steps set out from a frontier that holds a chunk.
pub proof fn lemma_refined_needs_frontier(
    img: Raster,
    metric: ErrCalc,
    a: Approximation,
    b: Approximation,
    n: nat,
)
    requires
        refined(img, metric, a, b, n),
        n >= 1,
    ensures
        a.frontier.len() > 0,
{
    let first = lemma_refined_passes(img, metric, a, b, n, 1);
    let start = choose|start: Approximation|
        refined(img, metric, a, start, 0) && #[trigger] step(img, metric, start, first);
    lemma_step_needs_frontier(img, metric, a, first);
}

/// Two ends of refinement of up to `depth` steps from one approximation
/// are one.
proof fn lemma_ends_agree(
    img: Raster,
    metric: ErrCalc,
    a: Approximation,
    b1: Approximation,
    b2: Approximation,
    depth: nat,
)
    requires
        refines_within(img, metric, a, b1, depth),
        refines_within(img, metric, a, b2, depth),
    ensures
        b1 == b2,
{
    let n1 = choose|n: nat|
        n <= depth && #[trigger] refined(img, metric, a, b1, n) && (n == depth || b1.frontier.len()
            == 0);
    let n2 = choose|n: nat|
        n <= depth && #[trigger] refined(img, metric, a, b2, n) && (n == depth || b2.frontier.len()
            == 0);
    if n1 < n2 {
        // The longer run passes where the shorter one ended, on an empty
        // frontier, and cannot have gone on from there.
        let mid = lemma_refined_passes(img, metric, a, b2, n2, n1);
        refinement_is_determined(img, metric, a, b1, mid, n1);
        lemma_refined_needs_frontier(img, metric, mid, b2, (n2 - n1) as nat);
    } else if n2 < n1 {
        let mid = lemma_refined_passes(img, metric, a, b1, n1, n2);
        refinement_is_determined(img, metric, a, b2, mid, n2);
        lemma_refined_needs_frontier(img, metric, mid, b1, (n1 - n2) as nat);
    } else {
        refinement_is_determined(img, metric, a, b1, b2, n1);
    }
}

/// Refinement of up to `depth` steps is a function of where it sets out
/// and of `depth`: it ends in one approximation only.
pub proof fn refinement_within_is_determined(
    img: Raster,
    metric: ErrCalc,
    a: Approximation,
    b1: Approximation,
    b2: Approximation,
    depth: nat,
)
    requires
        refines_within(img, metric, a, b1, depth),
        refines_within(img, metric, a, b2, depth),
    ensures
        b1 == b2,
        b1 == refinement_of(img, metric, a, depth),
{
    lemma_ends_agree(img, metric, a, b1, b2, depth);
    lemma_ends_agree(img, metric, a, b1, refinement_of(img, metric, a, depth), depth);
}

/// Refinement resumes where it left off: up to `d1` steps from `a` and
/// then up to `d2` more end where up to `d1 + d2` steps from `a` end.
pub proof fn refinement_resumes(
    img: Raster,
    metric: ErrCalc,
    a: Approximation,
    mid: Approximation,
    b: Approximation,
    d1: nat,
    d2: nat,
)
    requires
        refines_within(img, metric, a, mid, d1),
        refines_within(img, metric, mid, b, d2),
    ensures
        refines_within(img, metric, a, b, d1 + d2),
        b == refinement_of(img, metric, a, d1 + d2),
{
    let n1 = choose|n: nat|
        n <= d1 && #[trigger] refined(img, metric, a, mid, n) && (n == d1 || mid.frontier.len()
            == 0);
    let n2 = choose|n: nat|
        n <= d2 && #[trigger] refined(img, metric, mid, b, n) && (n == d2 || b.frontier.len() == 0);
    lemma_refined_joins(img, metric, a, mid, b, n1, n2);
    if n1 < d1 && n2 >= 1 {
        // The first run ended on an empty frontier, so the second took no step.
        lemma_refined_needs_frontier(img, metric, mid, b, n2);
    }
    assert(refined(img, metric, a, b, n1 + n2) && (n1 + n2 == d1 + d2 || b.frontier.len() == 0));
    refinement_within_is_determined(img, metric, a, b, b, d1 + d2);
}

/// A refinement step on a valid approximation gives a valid one.
pub proof fn lemma_step_keeps_valid(
    img: Raster,
    metric: ErrCalc,
    a: Approximation,
    b: Approximation,
    top: Chunk,
)
    requires
        a.valid(img, metric),
        step_on(img, metric, a, b, top),
    ensures
        b.valid(img, metric),
{
    let before = a.chunks();
    let after = b.chunks();
    let kids = top.children(img, metric);
    let entering = kids.to_multiset();
    assert(before.count(top) > 0);
    top.lemma_children_tile(img, metric);
    kids.to_multiset_ensures();
    if top.is_terminal() {
        // Nothing enters: the chunk only moves from the frontier to the
        // finished ones.
        assert(after =~= before);
    } else {
        // Each child covers its own corner, and no two share a pixel.
        assert(kids.no_duplicates()) by {
            assert forall|i: int, j: int|
                0 <= i < kids.len() && 0 <= j < kids.len() && i != j implies kids[i] != kids[j] by {
                assert(kids[i].covers(kids[i].x as int, kids[i].y as int));
            }
        }
        kids.lemma_multiset_has_no_duplicates();
        assert(after =~= before.remove(top).add(entering));
        // A child lies inside its parent, so it is no chunk of the old tiling.
        assert forall|c: Chunk| entering.count(c) > 0 implies before.remove(top).count(c) == 0
            && c.evaluates(img, metric) && entering.count(c) == 1 by {
            let i = choose|i: int| 0 <= i < kids.len() && kids[i] == c;
            assert(kids[i].covers(c.x as int, c.y as int));
        }
        // Two chunks that share a pixel are two old ones, two children, or a
        // child and its parent, which is gone.
        assert forall|c: Chunk, d: Chunk, px: int, py: int|
            after.count(c) > 0 && after.count(d) > 0 && #[trigger] c.covers(px, py)
                && #[trigger] d.covers(px, py) implies c == d by {
            if entering.count(c) > 0 {
                let i = choose|i: int| 0 <= i < kids.len() && kids[i] == c;
            }
            if entering.count(d) > 0 {
                let j = choose|j: int| 0 <= j < kids.len() && kids[j] == d;
            }
        }
        // A pixel of the parent lies in one of the children.
        assert forall|px: int, py: int| #[trigger] in_raster(img, px, py) implies exists|c: Chunk|
            after.count(c) > 0 && #[trigger] c.covers(px, py) by {
            let c = choose|c: Chunk| before.count(c) > 0 && #[trigger] c.covers(px, py);
            if c == top {
                let i = choose|i: int| 0 <= i < kids.len() && #[trigger] kids[i].covers(px, py);
            }
        }
    }
}

/// Refinement keeps an approximation valid: whatever the number of steps,
/// the chunks still partition the image, each with the colour and error
/// of its rectangle.
pub proof fn refinement_keeps_valid(
    img: Raster,
    metric: ErrCalc,
    a: Approximation,
    b: Approximation,
    n: nat,
)
    requires
        a.valid(img, metric),
        refined(img, metric, a, b, n),
    ensures
        b.valid(img, metric),
    decreases n,
{
    if n > 0 {
        let mid = choose|mid: Approximation|
            refined(img, metric, a, mid, (n - 1) as nat) && #[trigger] step(img, metric, mid, b);
        refinement_keeps_valid(img, metric, a, mid, (n - 1) as nat);
        let top = choose|top: Chunk| step_on(img, metric, mid, b, top);
        lemma_step_keeps_valid(img, metric, mid, b, top);
    }
}

/// Where nothing is left in the frontier of a valid approximation, every
/// chunk is a single pixel.
pub proof fn exhausted_is_fully_subdivided(img: Raster, metric: ErrCalc, a: Approximation)
    requires
        a.valid(img, metric),
        a.frontier.len() == 0,
    ensures
        fully_subdivided(a.chunks()),
{
    // An empty frontier holds no chunk, so every chunk is a finished one.
    assert(a.chunks() =~= a.finished);
}

/// Once every chunk is a single pixel, refinement changes nothing: after
/// any number of steps the same chunks are held.
pub proof fn refinement_of_pixels_is_idle(
    img: Raster,
    metric: ErrCalc,
    a: Approximation,
    b: Approximation,
    n: nat,
)
    requires
        fully_subdivided(a.chunks()),
        refined(img, metric, a, b, n),
    ensures
        b.chunks() == a.chunks(),
    decreases n,
{
    if n > 0 {
        let mid = choose|mid: Approximation|
            refined(img, metric, a, mid, (n - 1) as nat) && #[trigger] step(img, metric, mid, b);
        refinement_of_pixels_is_idle(img, metric, a, mid, (n - 1) as nat);
        // The chunk taken is a single pixel: nothing enters the frontier, and
        // the pixel stays among the finished ones.
        let top = choose|top: Chunk| step_on(img, metric, mid, b, top);
        assert(mid.chunks().count(top) > 0);
        lemma_empty_holds_nothing();
        assert(b.chunks() =~= mid.chunks());
    }
}

} // verus!
