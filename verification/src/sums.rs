//! Sums over rectangles of pixels: the quantities that the error metrics
//! add up, and how such sums behave when a rectangle is cut or is of one
//! colour.

use vstd::prelude::*;
use crate::raster::{Color, Raster, pixel};

verus! {

/// What is summed over the pixels of a region, channel by channel.
#[derive(Clone, Copy, Debug)]
pub enum Quantity {
    /// The sample itself.
    Sample,
    /// The distance of the sample from that of a base colour.
    Deviation(Color),
    /// The square of that distance.
    SquaredDeviation(Color),
}

/// Channel `k` of a colour: red, green, blue and alpha are 0 to 3.
pub open spec fn channel(c: Color, k: int) -> int {
    if k == 0 {
        c.r as int
    } else if k == 1 {
        c.g as int
    } else if k == 2 {
        c.b as int
    } else {
        c.a as int
    }
}

/// Distance between two integers.
pub open spec fn distance(a: int, b: int) -> int {
    if a >= b {
        a - b
    } else {
        b - a
    }
}

/// What one pixel of colour `c` adds to the sum of `q` in channel `k`.
pub open spec fn term(q: Quantity, k: int, c: Color) -> int {
    match q {
        Quantity::Sample => channel(c, k),
        Quantity::Deviation(base) => distance(channel(c, k), channel(base, k)),
        Quantity::SquaredDeviation(base) => (channel(c, k) - channel(base, k)) * (channel(c, k)
            - channel(base, k)),
    }
}

/// The largest value a single term of `q` can take.
pub open spec fn term_limit(q: Quantity) -> int {
    match q {
        Quantity::Sample => 255,
        Quantity::Deviation(_) => 255,
        Quantity::SquaredDeviation(_) => 65025,
    }
}

/// Sum of `q` in channel `k` over the `w` pixels of row `y` that start at
/// column `x`.
pub open spec fn row_sum(img: Raster, x: int, y: int, w: int, q: Quantity, k: int) -> int
    decreases w,
{
    if w <= 0 {
        0
    } else {
        row_sum(img, x, y, w - 1, q, k) + term(q, k, pixel(img, x + w - 1, y))
    }
}

/// Sum of `q` in channel `k` over the rectangle of `w` by `h` pixels whose
/// top left corner is `(x, y)`.
pub open spec fn region_sum(img: Raster, x: int, y: int, w: int, h: int, q: Quantity, k: int) -> int
    decreases h,
{
    if h <= 0 {
        0
    } else {
        region_sum(img, x, y, w, h - 1, q, k) + row_sum(img, x, y + h - 1, w, q, k)
    }
}

/// The sum over `rows` whole rows of a region and the first `cols` pixels
/// of the row that follows them.
pub open spec fn partial_sum(
    img: Raster,
    x: int,
    y: int,
    w: int,
    rows: int,
    cols: int,
    q: Quantity,
    k: int,
) -> int {
    region_sum(img, x, y, w, rows, q, k) + row_sum(img, x, y + rows, cols, q, k)
}

/// Whether every pixel of the rectangle has the colour `c`.
pub open spec fn uniform(img: Raster, x: int, y: int, w: int, h: int, c: Color) -> bool {
    forall|px: int, py: int|
        x <= px < x + w && y <= py < y + h ==> #[trigger] pixel(img, px, py) == c
}

/// A single term is never negative and never above its limit.
pub proof fn lemma_term_bounds(q: Quantity, k: int, c: Color)
    ensures
        0 <= term(q, k, c) <= term_limit(q),
{
    match q {
        Quantity::SquaredDeviation(base) => {
            let d = channel(c, k) - channel(base, k);
            assert(0 <= d * d <= 65025) by (nonlinear_arith)
                requires
                    -255 <= d <= 255,
            ;
        },
        _ => {},
    }
}

/// A row of `w` pixels sums to at most `w` times the limit of a term.
pub proof fn lemma_row_sum_bounds(img: Raster, x: int, y: int, w: int, q: Quantity, k: int)
    requires
        0 <= w,
    ensures
        0 <= row_sum(img, x, y, w, q, k) <= w * term_limit(q),
    decreases w,
{
    if w > 0 {
        lemma_row_sum_bounds(img, x, y, w - 1, q, k);
        lemma_term_bounds(q, k, pixel(img, x + w - 1, y));
        assert((w - 1) * term_limit(q) + term_limit(q) == w * term_limit(q)) by (nonlinear_arith);
    }
}

/// A region of `w` by `h` pixels sums to at most `w * h` times the limit
/// of a term.
pub proof fn lemma_region_sum_bounds(
    img: Raster,
    x: int,
    y: int,
    w: int,
    h: int,
    q: Quantity,
    k: int,
)
    requires
        0 <= w,
        0 <= h,
    ensures
        0 <= region_sum(img, x, y, w, h, q, k) <= w * h * term_limit(q),
    decreases h,
{
    if h > 0 {
        lemma_region_sum_bounds(img, x, y, w, h - 1, q, k);
        lemma_row_sum_bounds(img, x, y + h - 1, w, q, k);
        assert(w * (h - 1) * term_limit(q) + w * term_limit(q) == w * h * term_limit(q))
            by (nonlinear_arith);
    } else {
        assert(w * h * term_limit(q) == 0) by (nonlinear_arith)
            requires
                h == 0,
        ;
    }
}

/// A partial sum over a region of any image stays far below the range of
/// 128 bits.
pub proof fn lemma_partial_sum_fits(
    img: Raster,
    x: int,
    y: int,
    w: int,
    rows: int,
    cols: int,
    q: Quantity,
    k: int,
)
    requires
        0 <= w <= u32::MAX,
        0 <= rows <= u32::MAX,
        0 <= cols <= u32::MAX,
    ensures
        0 <= partial_sum(img, x, y, w, rows, cols, q, k) <= 0x1_0000_0000_0000_0000_0000,
{
    lemma_region_sum_bounds(img, x, y, w, rows, q, k);
    lemma_row_sum_bounds(img, x, y + rows, cols, q, k);
    let limit = term_limit(q);
    assert(w * rows * limit + cols * limit <= 0x1_0000_0000_0000_0000_0000) by (nonlinear_arith)
        requires
            0 <= w <= 0xffff_ffff,
            0 <= rows <= 0xffff_ffff,
            0 <= cols <= 0xffff_ffff,
            0 <= limit <= 65025,
    ;
}

/// A row is summed piece by piece: the first `w1` pixels, then the `w2`
/// that follow.
pub proof fn lemma_row_sum_splits(
    img: Raster,
    x: int,
    y: int,
    w1: int,
    w2: int,
    q: Quantity,
    k: int,
)
    requires
        0 <= w1,
        0 <= w2,
    ensures
        row_sum(img, x, y, w1 + w2, q, k) == row_sum(img, x, y, w1, q, k) + row_sum(
            img,
            x + w1,
            y,
            w2,
            q,
            k,
        ),
    decreases w2,
{
    if w2 > 0 {
        lemma_row_sum_splits(img, x, y, w1, w2 - 1, q, k);
    }
}

/// A region is summed side by side: its left `w1` columns, then the `w2`
/// to their right.
pub proof fn lemma_region_sum_splits_across(
    img: Raster,
    x: int,
    y: int,
    w1: int,
    w2: int,
    h: int,
    q: Quantity,
    k: int,
)
    requires
        0 <= w1,
        0 <= w2,
    ensures
        region_sum(img, x, y, w1 + w2, h, q, k) == region_sum(img, x, y, w1, h, q, k) + region_sum(
            img,
            x + w1,
            y,
            w2,
            h,
            q,
            k,
        ),
    decreases h,
{
    if h > 0 {
        lemma_region_sum_splits_across(img, x, y, w1, w2, h - 1, q, k);
        lemma_row_sum_splits(img, x, y + h - 1, w1, w2, q, k);
    }
}

/// A region is summed top to bottom: its upper `h1` rows, then the `h2`
/// below them.
pub proof fn lemma_region_sum_splits_down(
    img: Raster,
    x: int,
    y: int,
    w: int,
    h1: int,
    h2: int,
    q: Quantity,
    k: int,
)
    requires
        0 <= h1,
        0 <= h2,
    ensures
        region_sum(img, x, y, w, h1 + h2, q, k) == region_sum(img, x, y, w, h1, q, k) + region_sum(
            img,
            x,
            y + h1,
            w,
            h2,
            q,
            k,
        ),
    decreases h2,
{
    if h2 > 0 {
        lemma_region_sum_splits_down(img, x, y, w, h1, h2 - 1, q, k);
    }
}

/// Over pixels of one colour a row sums to as many equal terms.
pub proof fn lemma_uniform_row_sum(
    img: Raster,
    x: int,
    y: int,
    w: int,
    c: Color,
    q: Quantity,
    k: int,
)
    requires
        0 <= w,
        uniform(img, x, y, w, 1, c),
    ensures
        row_sum(img, x, y, w, q, k) == w * term(q, k, c),
    decreases w,
{
    if w > 0 {
        lemma_uniform_row_sum(img, x, y, w - 1, c, q, k);
        assert((w - 1) * term(q, k, c) + term(q, k, c) == w * term(q, k, c)) by (nonlinear_arith);
    } else {
        assert(w * term(q, k, c) == 0) by (nonlinear_arith)
            requires
                w == 0,
        ;
    }
}

/// Over pixels of one colour a region sums to as many equal terms.
pub proof fn lemma_uniform_region_sum(
    img: Raster,
    x: int,
    y: int,
    w: int,
    h: int,
    c: Color,
    q: Quantity,
    k: int,
)
    requires
        0 <= w,
        0 <= h,
        uniform(img, x, y, w, h, c),
    ensures
        region_sum(img, x, y, w, h, q, k) == w * h * term(q, k, c),
    decreases h,
{
    if h > 0 {
        lemma_uniform_region_sum(img, x, y, w, h - 1, c, q, k);
        lemma_uniform_row_sum(img, x, y + h - 1, w, c, q, k);
        assert(w * (h - 1) * term(q, k, c) + w * term(q, k, c) == w * h * term(q, k, c))
            by (nonlinear_arith);
    } else {
        assert(w * h * term(q, k, c) == 0) by (nonlinear_arith)
            requires
                h == 0,
        ;
    }
}

/// By how much the squared deviation of a row from one colour exceeds
/// that from another.
pub proof fn lemma_row_square_difference(
    img: Raster,
    x: int,
    y: int,
    w: int,
    c1: Color,
    c2: Color,
    k: int,
)
    requires
        0 <= w,
    ensures
        row_sum(img, x, y, w, Quantity::SquaredDeviation(c1), k) - row_sum(
            img,
            x,
            y,
            w,
            Quantity::SquaredDeviation(c2),
            k,
        ) == (channel(c2, k) - channel(c1, k)) * (2 * row_sum(img, x, y, w, Quantity::Sample, k) - w
            * (channel(c1, k) + channel(c2, k))),
    decreases w,
{
    let m1 = channel(c1, k);
    let m2 = channel(c2, k);
    if w > 0 {
        lemma_row_square_difference(img, x, y, w - 1, c1, c2, k);
        let v = channel(pixel(img, x + w - 1, y), k);
        let s1 = row_sum(img, x, y, w - 1, Quantity::Sample, k);
        assert((v - m1) * (v - m1) - (v - m2) * (v - m2) + (m2 - m1) * (2 * s1 - (w - 1) * (m1
            + m2)) == (m2 - m1) * (2 * (s1 + v) - w * (m1 + m2))) by (nonlinear_arith);
    } else {
        assert((m2 - m1) * (2 * 0 - w * (m1 + m2)) == 0) by (nonlinear_arith)
            requires
                w == 0,
        ;
    }
}

/// By how much the squared deviation of a region from one colour exceeds
/// that from another: a product of the distance between the two and of
/// where they lie relative to the mean.
pub proof fn lemma_square_difference(
    img: Raster,
    x: int,
    y: int,
    w: int,
    h: int,
    c1: Color,
    c2: Color,
    k: int,
)
    requires
        0 <= w,
        0 <= h,
    ensures
        region_sum(img, x, y, w, h, Quantity::SquaredDeviation(c1), k) - region_sum(
            img,
            x,
            y,
            w,
            h,
            Quantity::SquaredDeviation(c2),
            k,
        ) == (channel(c2, k) - channel(c1, k)) * (2 * region_sum(
            img,
            x,
            y,
            w,
            h,
            Quantity::Sample,
            k,
        ) - (w * h) * (channel(c1, k) + channel(c2, k))),
    decreases h,
{
    let m1 = channel(c1, k);
    let m2 = channel(c2, k);
    if h > 0 {
        lemma_square_difference(img, x, y, w, h - 1, c1, c2, k);
        lemma_row_square_difference(img, x, y + h - 1, w, c1, c2, k);
        let s1 = region_sum(img, x, y, w, h - 1, Quantity::Sample, k);
        let s2 = row_sum(img, x, y + h - 1, w, Quantity::Sample, k);
        let n1 = w * (h - 1);
        let n = w * h;
        assert(n1 + w == n) by (nonlinear_arith)
            requires
                n1 == w * (h - 1),
                n == w * h,
        ;
        assert((m2 - m1) * (2 * s1 - n1 * (m1 + m2)) + (m2 - m1) * (2 * s2 - w * (m1 + m2)) == (m2
            - m1) * (2 * (s1 + s2) - n * (m1 + m2))) by (nonlinear_arith)
            requires
                n1 + w == n,
        ;
    } else {
        assert((m2 - m1) * (2 * 0 - (w * h) * (m1 + m2)) == 0) by (nonlinear_arith)
            requires
                h == 0,
        ;
    }
}

} // verus!
