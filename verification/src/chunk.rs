//! Chunks: rectangles of an image, each with the colour that stands for
//! its pixels and the error of that approximation.

use vstd::prelude::*;
use crate::metric::{ErrCalc, channel_error, region_mean, region_valid, uniform_region_is_exact};
use crate::raster::{Color, Raster};
use crate::sums::{Quantity, lemma_region_sum_bounds, region_sum, uniform};

verus! {

/// The unit of the channel weights: a weight of this value counts a
/// channel error in full.
pub const WEIGHT_UNIT: u128 = 1000;

/// Weight of the red channel in the error of a chunk, in thousandths.
pub const WEIGHT_RED: u128 = 1000;

/// Weight of the green channel in the error of a chunk, in thousandths.
pub const WEIGHT_GREEN: u128 = 1000;

/// Weight of the blue channel in the error of a chunk, in thousandths.
pub const WEIGHT_BLUE: u128 = 1000;

/// Weight of the alpha channel in the error of a chunk, in thousandths:
/// transparency does not decide where to refine.
pub const WEIGHT_ALPHA: u128 = 0;

/// A rectangle of an image, approximated by a single colour.
#[derive(Clone, Copy, Debug, PartialEq, Eq, Structural)]
pub struct Chunk {
    pub x: u32,
    pub y: u32,
    pub width: u32,
    pub height: u32,
    pub color: Color,
    pub error: u64,
}

/// The place of a chunk in the order in which refinement takes chunks:
/// the chunk of highest rank goes first. A larger error ranks higher;
/// among chunks of equal error the one whose corner lies higher up in the
/// image does, then the one whose corner lies further left. Chunks of one
/// tiling have different corners, so that nothing else decides between
/// them; for the sake of other chunks the rank goes on to prefer the
/// wider, the taller and the one of the larger samples, and so tells any
/// two chunks apart.
#[verifier::opaque]
pub open spec fn rank(c: Chunk) -> int {
    (((((((c.error * 0x1_0000_0000 + (0xffff_ffff - c.y)) * 0x1_0000_0000 + (0xffff_ffff - c.x))
        * 0x1_0000_0000 + c.width) * 0x1_0000_0000 + c.height) * 0x100 + c.color.r) * 0x100
        + c.color.g) * 0x100 + c.color.b) * 0x100 + c.color.a
}

/// Chunks of equal rank are one chunk, and a chunk of no lower rank has
/// no smaller error.
pub proof fn lemma_rank_tells_apart(a: Chunk, b: Chunk)
    ensures
        rank(a) == rank(b) <==> a == b,
        rank(a) >= rank(b) ==> a.error >= b.error,
{
    reveal(rank);
    // The first field in which the two differ decides which ranks higher.
    if a.error != b.error {
        assert(a.error > b.error <==> rank(a) > rank(b));
    } else if a.y != b.y {
        assert(a.y < b.y <==> rank(a) > rank(b));
    } else if a.x != b.x {
        assert(a.x < b.x <==> rank(a) > rank(b));
    } else if a.width != b.width {
        assert(a.width > b.width <==> rank(a) > rank(b));
    } else if a.height != b.height {
        assert(a.height > b.height <==> rank(a) > rank(b));
    } else if a.color.r != b.color.r {
        assert(a.color.r > b.color.r <==> rank(a) > rank(b));
    } else if a.color.g != b.color.g {
        assert(a.color.g > b.color.g <==> rank(a) > rank(b));
    } else if a.color.b != b.color.b {
        assert(a.color.b > b.color.b <==> rank(a) > rank(b));
    } else if a.color.a != b.color.a {
        assert(a.color.a > b.color.a <==> rank(a) > rank(b));
    }
}

/// Weight of channel `k` in the error of a chunk.
pub open spec fn channel_weight(k: int) -> int {
    if k == 0 {
        WEIGHT_RED as int
    } else if k == 1 {
        WEIGHT_GREEN as int
    } else if k == 2 {
        WEIGHT_BLUE as int
    } else {
        WEIGHT_ALPHA as int
    }
}

/// A channel error times its weight, rounded towards zero.
pub open spec fn weighted(error: int, weight: int) -> int {
    error * weight / (WEIGHT_UNIT as int)
}

/// With the weights of this module the three colour channels count in
/// full and alpha not at all.
pub proof fn lemma_weights_in_use(error: int)
    ensures
        weighted(error, channel_weight(0)) == error,
        weighted(error, channel_weight(1)) == error,
        weighted(error, channel_weight(2)) == error,
        weighted(error, channel_weight(3)) == 0,
{
    assert(error * 1000 / 1000 == error);
    assert(error * 0 / 1000 == 0);
}

/// The weighted sum of the channel errors of a region, each term rounded
/// towards zero before it is added.
pub open spec fn weighted_error(img: Raster, x: int, y: int, w: int, h: int, metric: ErrCalc) -> int {
    weighted(channel_error(img, x, y, w, h, metric, 0), channel_weight(0)) + weighted(
        channel_error(img, x, y, w, h, metric, 1),
        channel_weight(1),
    ) + weighted(channel_error(img, x, y, w, h, metric, 2), channel_weight(2)) + weighted(
        channel_error(img, x, y, w, h, metric, 3),
        channel_weight(3),
    )
}

/// A natural number as a 64-bit value, held at the largest one where it
/// does not fit.
pub open spec fn saturate(v: int) -> u64 {
    if v > u64::MAX {
        u64::MAX
    } else {
        v as u64
    }
}

/// The chunk that evaluating a region of an image under a metric gives.
pub open spec fn evaluation(img: Raster, x: int, y: int, w: int, h: int, metric: ErrCalc) -> Chunk {
    Chunk {
        x: x as u32,
        y: y as u32,
        width: w as u32,
        height: h as u32,
        color: region_mean(img, x, y, w, h),
        error: saturate(weighted_error(img, x, y, w, h, metric)),
    }
}

/// The error of a channel of a region is never negative and fits an
/// accumulator many times over.
pub proof fn lemma_channel_error_bounds(
    img: Raster,
    x: int,
    y: int,
    w: int,
    h: int,
    metric: ErrCalc,
    k: int,
)
    requires
        1 <= w <= u32::MAX,
        1 <= h <= u32::MAX,
    ensures
        0 <= channel_error(img, x, y, w, h, metric, k) <= 0x1_0000_0000_0000_0000_0000,
{
    let mean = region_mean(img, x, y, w, h);
    let q = if metric is Linear {
        Quantity::Deviation(mean)
    } else {
        Quantity::SquaredDeviation(mean)
    };
    lemma_region_sum_bounds(img, x, y, w, h, q, k);
    let total = region_sum(img, x, y, w, h, q, k);
    let n = w * h;
    assert(total <= 0x1_0000_0000_0000_0000_0000 && 0 <= total / n <= total) by (nonlinear_arith)
        requires
            0 <= total <= n * 65025,
            n == w * h,
            1 <= w <= 0xffff_ffff,
            1 <= h <= 0xffff_ffff,
    ;
}

impl Chunk {
    /// Whether this chunk goes before `other` when the two are in one
    /// frontier: whether its rank is the higher.
    pub fn outranks(&self, other: &Chunk) -> (r: bool)
        ensures
            r == (rank(*self) > rank(*other)),
    {
        proof {
            reveal(rank);
        }
        if self.error != other.error {
            self.error > other.error
        } else if self.y != other.y {
            self.y < other.y
        } else if self.x != other.x {
            self.x < other.x
        } else if self.width != other.width {
            self.width > other.width
        } else if self.height != other.height {
            self.height > other.height
        } else if self.color.r != other.color.r {
            self.color.r > other.color.r
        } else if self.color.g != other.color.g {
            self.color.g > other.color.g
        } else if self.color.b != other.color.b {
            self.color.b > other.color.b
        } else {
            self.color.a > other.color.a
        }
    }

    /// Whether the pixel `(px, py)` lies in the rectangle of the chunk.
    pub open spec fn covers(self, px: int, py: int) -> bool {
        self.x <= px < self.x + self.width && self.y <= py < self.y + self.height
    }

    /// Whether the chunk is a single pixel, which cannot be split.
    pub open spec fn is_terminal(self) -> bool {
        self.width == 1 && self.height == 1
    }

    /// Whether the rectangle of the chunk holds a pixel and lies inside the
    /// image.
    pub open spec fn within(self, img: Raster) -> bool {
        region_valid(img, self.x as int, self.y as int, self.width as int, self.height as int)
    }

    /// Whether colour and error of the chunk are those of its rectangle in
    /// `img` under `metric`.
    pub open spec fn evaluates(self, img: Raster, metric: ErrCalc) -> bool {
        &&& self.within(img)
        &&& self == evaluation(
            img,
            self.x as int,
            self.y as int,
            self.width as int,
            self.height as int,
            metric,
        )
    }

    /// Evaluates a region of an image: its mean colour, and as its error
    /// the weighted channel errors under `err_calc`, held at `u64::MAX`
    /// where their sum is larger.
    pub fn from_img(img: &Raster, x: u32, y: u32, width: u32, height: u32, err_calc: ErrCalc) -> (c:
        Self)
        requires
            region_valid(*img, x as int, y as int, width as int, height as int),
        ensures
            c == evaluation(*img, x as int, y as int, width as int, height as int, err_calc),
    {
        let (error_raw, color) = err_calc.evaluate(img, x, y, width, height);
        proof {
            lemma_channel_error_bounds(*img, x as int, y as int, width as int, height as int, err_calc, 0);
            lemma_channel_error_bounds(*img, x as int, y as int, width as int, height as int, err_calc, 1);
            lemma_channel_error_bounds(*img, x as int, y as int, width as int, height as int, err_calc, 2);
            lemma_channel_error_bounds(*img, x as int, y as int, width as int, height as int, err_calc, 3);
        }
        let total: u128 = error_raw.r * WEIGHT_RED / WEIGHT_UNIT + error_raw.g * WEIGHT_GREEN
            / WEIGHT_UNIT + error_raw.b * WEIGHT_BLUE / WEIGHT_UNIT + error_raw.a * WEIGHT_ALPHA
            / WEIGHT_UNIT;
        let error: u64 = if total > u64::MAX as u128 {
            u64::MAX
        } else {
            total as u64
        };
        Chunk { x, y, width, height, color, error }
    }

    /// The chunks that take the place of this one when it is split: four
    /// quadrants where it is more than one pixel wide and high, two halves
    /// where it is so in one direction only, none for a single pixel. An
    /// odd pixel goes to the right or lower part.
    pub open spec fn children(self, img: Raster, metric: ErrCalc) -> Seq<Chunk> {
        let x0 = self.x as int;
        let y0 = self.y as int;
        let w = self.width as int;
        let h = self.height as int;
        let w0 = w / 2;
        let w1 = w - w0;
        let h0 = h / 2;
        let h1 = h - h0;
        if w > 1 && h > 1 {
            seq![
                evaluation(img, x0, y0, w0, h0, metric),
                evaluation(img, x0 + w0, y0, w1, h0, metric),
                evaluation(img, x0, y0 + h0, w0, h1, metric),
                evaluation(img, x0 + w0, y0 + h0, w1, h1, metric),
            ]
        } else if w > 1 {
            seq![evaluation(img, x0, y0, w0, h, metric), evaluation(img, x0 + w0, y0, w1, h, metric)]
        } else if h > 1 {
            seq![evaluation(img, x0, y0, w, h0, metric), evaluation(img, x0, y0 + h0, w, h1, metric)]
        } else {
            Seq::empty()
        }
    }

    /// Splits the chunk and evaluates each part against the image.
    pub fn split(self, img: &Raster, err_calc: ErrCalc) -> (r: Vec<Chunk>)
        requires
            self.within(*img),
        ensures
            r@ == self.children(*img, err_calc),
    {
        let width0 = self.width / 2;
        let width1 = self.width - width0;
        let height0 = self.height / 2;
        let height1 = self.height - height0;
        let x0 = self.x;
        let x1 = self.x + width0;
        let y0 = self.y;
        let y1 = self.y + height0;

        let mut chunks: Vec<Chunk> = Vec::new();
        if self.width > 1 && self.height > 1 {
            chunks.push(Chunk::from_img(img, x0, y0, width0, height0, err_calc));
            chunks.push(Chunk::from_img(img, x1, y0, width1, height0, err_calc));
            chunks.push(Chunk::from_img(img, x0, y1, width0, height1, err_calc));
            chunks.push(Chunk::from_img(img, x1, y1, width1, height1, err_calc));
        } else if self.width > 1 {
            chunks.push(Chunk::from_img(img, x0, y0, width0, self.height, err_calc));
            chunks.push(Chunk::from_img(img, x1, y0, width1, self.height, err_calc));
        } else if self.height > 1 {
            chunks.push(Chunk::from_img(img, x0, y0, self.width, height0, err_calc));
            chunks.push(Chunk::from_img(img, x0, y1, self.width, height1, err_calc));
        }
        chunks
    }

    /// A single pixel has no children.
    pub proof fn terminal_chunk_has_no_children(self, img: Raster, metric: ErrCalc)
        requires
            self.is_terminal(),
        ensures
            self.children(img, metric) == Seq::<Chunk>::empty(),
    {
    }

    /// The children of a chunk tile it: there are none, two or four, each
    /// is a valid evaluation inside the parent, no two share a pixel, and
    /// unless the parent is a single pixel every pixel of it lies in one of
    /// them.
    pub proof fn lemma_children_tile(self, img: Raster, metric: ErrCalc)
        requires
            self.within(img),
        ensures
            self.is_terminal() <==> self.children(img, metric).len() == 0,
            self.children(img, metric).len() == 0 || self.children(img, metric).len() == 2
                || self.children(img, metric).len() == 4,
            forall|i: int|
                0 <= i < self.children(img, metric).len() ==> (#[trigger] self.children(
                    img,
                    metric,
                )[i]).evaluates(img, metric),
            forall|i: int, px: int, py: int|
                0 <= i < self.children(img, metric).len() && (#[trigger] self.children(
                    img,
                    metric,
                )[i].covers(px, py)) ==> self.covers(px, py),
            forall|i: int, j: int, px: int, py: int|
                0 <= i < j < self.children(img, metric).len() ==> !(#[trigger] self.children(
                    img,
                    metric,
                )[i].covers(px, py) && #[trigger] self.children(img, metric)[j].covers(px, py)),
            forall|px: int, py: int|
                !self.is_terminal() && #[trigger] self.covers(px, py) ==> exists|i: int|
                    0 <= i < self.children(img, metric).len() && #[trigger] self.children(
                        img,
                        metric,
                    )[i].covers(px, py),
    {
        let kids = self.children(img, metric);
        assert forall|px: int, py: int| !self.is_terminal() && #[trigger] self.covers(px, py) implies exists|i: int|
            0 <= i < kids.len() && #[trigger] kids[i].covers(px, py) by {
            let w0 = self.width as int / 2;
            let h0 = self.height as int / 2;
            if self.width > 1 && self.height > 1 {
                if py < self.y + h0 {
                    if px < self.x + w0 {
                        assert(kids[0].covers(px, py));
                    } else {
                        assert(kids[1].covers(px, py));
                    }
                } else {
                    if px < self.x + w0 {
                        assert(kids[2].covers(px, py));
                    } else {
                        assert(kids[3].covers(px, py));
                    }
                }
            } else if self.width > 1 {
                if px < self.x + w0 {
                    assert(kids[0].covers(px, py));
                } else {
                    assert(kids[1].covers(px, py));
                }
            } else {
                if py < self.y + h0 {
                    assert(kids[0].covers(px, py));
                } else {
                    assert(kids[1].covers(px, py));
                }
            }
        }
    }

    /// The weighted channel errors of an evaluated chunk, before they are
    /// held to 64 bits.
    pub open spec fn raw_error(self, img: Raster, metric: ErrCalc) -> int {
        weighted_error(
            img,
            self.x as int,
            self.y as int,
            self.width as int,
            self.height as int,
            metric,
        )
    }

    /// The error of an evaluated chunk is its raw error unless that is
    /// held at `u64::MAX`, and the raw error is never negative.
    pub proof fn lemma_error_is_raw(self, img: Raster, metric: ErrCalc)
        requires
            self.evaluates(img, metric),
        ensures
            0 <= self.raw_error(img, metric),
            self.error == saturate(self.raw_error(img, metric)),
            self.error <= self.raw_error(img, metric),
            self.error < u64::MAX ==> self.error == self.raw_error(img, metric),
            self.raw_error(img, metric) == channel_error(
                img,
                self.x as int,
                self.y as int,
                self.width as int,
                self.height as int,
                metric,
                0,
            ) + channel_error(
                img,
                self.x as int,
                self.y as int,
                self.width as int,
                self.height as int,
                metric,
                1,
            ) + channel_error(
                img,
                self.x as int,
                self.y as int,
                self.width as int,
                self.height as int,
                metric,
                2,
            ),
    {
        let x = self.x as int;
        let y = self.y as int;
        let w = self.width as int;
        let h = self.height as int;
        lemma_weights_in_use(channel_error(img, x, y, w, h, metric, 0));
        lemma_weights_in_use(channel_error(img, x, y, w, h, metric, 1));
        lemma_weights_in_use(channel_error(img, x, y, w, h, metric, 2));
        lemma_weights_in_use(channel_error(img, x, y, w, h, metric, 3));
        lemma_channel_error_bounds(img, x, y, w, h, metric, 0);
        lemma_channel_error_bounds(img, x, y, w, h, metric, 1);
        lemma_channel_error_bounds(img, x, y, w, h, metric, 2);
        lemma_channel_error_bounds(img, x, y, w, h, metric, 3);
    }
}

/// Evaluating a region of one colour gives that colour and no error,
/// whatever the metric.
pub proof fn uniform_chunk_is_exact(
    img: Raster,
    x: int,
    y: int,
    w: int,
    h: int,
    c: Color,
    metric: ErrCalc,
)
    requires
        w >= 1,
        h >= 1,
        uniform(img, x, y, w, h, c),
    ensures
        evaluation(img, x, y, w, h, metric).color == c,
        evaluation(img, x, y, w, h, metric).error == 0,
{
    uniform_region_is_exact(img, x, y, w, h, c, metric);
}

} // verus!
