//! What a split does to the error. Under the squared metrics the children
//! of a chunk would be no worse an approximation than the chunk was, were
//! their means exact; what the rounding of the means costs is accounted
//! for here to the last unit.

use vstd::prelude::*;
use crate::chunk::{Chunk, channel_weight};
use crate::metric::{ErrCalc, lemma_mean_fits, lemma_rounding_cost, rounding_cost, truncation_favours};
use crate::raster::{Color, Raster};
use crate::sums::{
    Quantity, channel, lemma_region_sum_bounds, lemma_region_sum_splits_across,
    lemma_region_sum_splits_down, region_sum,
};

verus! {

/// The value `v` where channel `k` counts towards the error of a chunk,
/// zero where it does not.
pub open spec fn counted(v: int, k: int) -> int {
    if channel_weight(k) > 0 {
        v
    } else {
        0
    }
}

impl Chunk {
    /// Number of pixels of the chunk.
    pub open spec fn pixels(self) -> int {
        self.width * self.height
    }

    /// Sum of `q` in channel `k` over the rectangle of the chunk.
    pub open spec fn sum_of(self, img: Raster, q: Quantity, k: int) -> int {
        region_sum(img, self.x as int, self.y as int, self.width as int, self.height as int, q, k)
    }

    /// The squared deviation of the chunk from its own colour, in channel
    /// `k`.
    pub open spec fn squared_error(self, img: Raster, k: int) -> int {
        self.sum_of(img, Quantity::SquaredDeviation(self.color), k)
    }

    /// What rounding the mean of the chunk costs in channel `k` against
    /// the colour `c`: by how much the squared error of the chunk exceeds
    /// its squared deviation from `c`.
    pub open spec fn cost_in(self, img: Raster, c: Color, k: int) -> int {
        rounding_cost(
            img,
            self.x as int,
            self.y as int,
            self.width as int,
            self.height as int,
            k,
            channel(c, k),
        )
    }

    /// What rounding the mean of the chunk costs against the colour `c`,
    /// over the channels that count.
    pub open spec fn cost_against(self, img: Raster, c: Color) -> int {
        counted(self.cost_in(img, c, 0), 0) + counted(self.cost_in(img, c, 1), 1) + counted(
            self.cost_in(img, c, 2),
            2,
        ) + counted(self.cost_in(img, c, 3), 3)
    }

    /// What the mean square metric drops when it divides the squared
    /// error of the chunk by its number of pixels, over the channels that
    /// count.
    pub open spec fn mean_square_loss(self, img: Raster) -> int {
        counted(self.squared_error(img, 0) % self.pixels(), 0) + counted(
            self.squared_error(img, 1) % self.pixels(),
            1,
        ) + counted(self.squared_error(img, 2) % self.pixels(), 2) + counted(
            self.squared_error(img, 3) % self.pixels(),
            3,
        )
    }

    /// Whether rounding the mean of the chunk towards zero does no worse
    /// than the colour `c` would, in every channel that counts.
    pub open spec fn rounds_no_worse_than(self, img: Raster, c: Color) -> bool {
        forall|k: int|
            0 <= k < 4 && channel_weight(k) > 0 ==> #[trigger] truncation_favours(
                img,
                self.x as int,
                self.y as int,
                self.width as int,
                self.height as int,
                k,
                channel(c, k),
            )
    }

    /// Whether each child of the chunk rounds its mean no worse than the
    /// colour of the chunk would do in its place.
    pub open spec fn children_round_well(self, img: Raster, metric: ErrCalc) -> bool {
        forall|i: int|
            0 <= i < self.children(img, metric).len() ==> (#[trigger] self.children(
                img,
                metric,
            )[i]).rounds_no_worse_than(img, self.color)
    }

    /// Whether the squared error of the chunk is a multiple of its number
    /// of pixels in every channel that counts, so that its mean square
    /// drops nothing.
    pub open spec fn mean_square_is_exact(self, img: Raster) -> bool {
        forall|k: int|
            0 <= k < 4 && channel_weight(k) > 0 ==> #[trigger] self.squared_error(img, k)
                % self.pixels() == 0
    }
}

/// Sum of the errors of the first `n` chunks of a sequence.
pub open spec fn error_of_first(s: Seq<Chunk>, n: int) -> int
    decreases n,
{
    if n <= 0 {
        0
    } else {
        error_of_first(s, n - 1) + s[n - 1].error
    }
}

/// Sum of the errors of the chunks of a sequence.
pub open spec fn total_error(s: Seq<Chunk>) -> int {
    error_of_first(s, s.len() as int)
}

/// Sum of the errors of the first `n` chunks of a sequence, each counted
/// once for every pixel of its chunk.
pub open spec fn pixel_error_of_first(s: Seq<Chunk>, n: int) -> int
    decreases n,
{
    if n <= 0 {
        0
    } else {
        pixel_error_of_first(s, n - 1) + s[n - 1].pixels() * s[n - 1].error
    }
}

/// Sum of the errors of the chunks of a sequence, each counted once for
/// every pixel of its chunk.
pub open spec fn total_pixel_error(s: Seq<Chunk>) -> int {
    pixel_error_of_first(s, s.len() as int)
}

/// What rounding their means costs the first `n` chunks of a sequence
/// against the colour `c`.
pub open spec fn cost_of_first(s: Seq<Chunk>, img: Raster, c: Color, n: int) -> int
    decreases n,
{
    if n <= 0 {
        0
    } else {
        cost_of_first(s, img, c, n - 1) + s[n - 1].cost_against(img, c)
    }
}

/// What rounding their means costs the chunks of a sequence against the
/// colour `c`.
pub open spec fn total_cost(s: Seq<Chunk>, img: Raster, c: Color) -> int {
    cost_of_first(s, img, c, s.len() as int)
}

/// What the mean square metric drops of the first `n` chunks of a
/// sequence.
pub open spec fn loss_of_first(s: Seq<Chunk>, img: Raster, n: int) -> int
    decreases n,
{
    if n <= 0 {
        0
    } else {
        loss_of_first(s, img, n - 1) + s[n - 1].mean_square_loss(img)
    }
}

/// What the mean square metric drops of the chunks of a sequence.
pub open spec fn total_loss(s: Seq<Chunk>, img: Raster) -> int {
    loss_of_first(s, img, s.len() as int)
}

impl Chunk {
    /// A sum over a chunk is the sum over its children.
    pub proof fn lemma_children_share_sum(self, img: Raster, metric: ErrCalc, q: Quantity, k: int)
        requires
            self.within(img),
        ensures
            ({
                let kids = self.children(img, metric);
                &&& kids.len() == 2 ==> kids[0].sum_of(img, q, k) + kids[1].sum_of(img, q, k)
                    == self.sum_of(img, q, k)
                &&& kids.len() == 4 ==> kids[0].sum_of(img, q, k) + kids[1].sum_of(img, q, k)
                    + kids[2].sum_of(img, q, k) + kids[3].sum_of(img, q, k) == self.sum_of(
                    img,
                    q,
                    k,
                )
            }),
    {
        let x = self.x as int;
        let y = self.y as int;
        let w = self.width as int;
        let h = self.height as int;
        let w0 = w / 2;
        let w1 = w - w0;
        let h0 = h / 2;
        let h1 = h - h0;
        if w > 1 && h > 1 {
            lemma_region_sum_splits_down(img, x, y, w, h0, h1, q, k);
            lemma_region_sum_splits_across(img, x, y, w0, w1, h0, q, k);
            lemma_region_sum_splits_across(img, x, y + h0, w0, w1, h1, q, k);
        } else if w > 1 {
            lemma_region_sum_splits_across(img, x, y, w0, w1, h, q, k);
        } else if h > 1 {
            lemma_region_sum_splits_down(img, x, y, w, h0, h1, q, k);
        }
    }

    /// In every channel the squared errors of the children of a chunk
    /// come to that of the chunk and what rounding their means costs them
    /// against its colour.
    pub proof fn lemma_children_squared_error(self, img: Raster, metric: ErrCalc, k: int)
        requires
            self.evaluates(img, metric),
            0 <= k < 4,
        ensures
            ({
                let kids = self.children(img, metric);
                let c = self.color;
                &&& kids.len() == 2 ==> kids[0].squared_error(img, k) + kids[1].squared_error(img, k)
                    == self.squared_error(img, k) + kids[0].cost_in(img, c, k) + kids[1].cost_in(
                    img,
                    c,
                    k,
                )
                &&& kids.len() == 4 ==> kids[0].squared_error(img, k) + kids[1].squared_error(img, k)
                    + kids[2].squared_error(img, k) + kids[3].squared_error(img, k)
                    == self.squared_error(img, k) + kids[0].cost_in(img, c, k) + kids[1].cost_in(
                    img,
                    c,
                    k,
                ) + kids[2].cost_in(img, c, k) + kids[3].cost_in(img, c, k)
            }),
    {
        let kids = self.children(img, metric);
        let q = Quantity::SquaredDeviation(self.color);
        self.lemma_children_tile(img, metric);
        // The deviations of the children from the colour of the parent add
        // up to the parent's, and each child differs from that by its cost.
        self.lemma_children_share_sum(img, metric, q, k);
        assert forall|i: int| 0 <= i < kids.len() implies (#[trigger] kids[i]).squared_error(img, k)
            == kids[i].sum_of(img, q, k) + kids[i].cost_in(img, self.color, k) by {
            let kid = kids[i];
            lemma_rounding_cost(
                img,
                kid.x as int,
                kid.y as int,
                kid.width as int,
                kid.height as int,
                self.color,
                k,
            );
        }
    }

    /// Under the square metric the weighted channel errors of a chunk are
    /// its squared errors in the three colour channels.
    pub proof fn lemma_square_error_is_sum(self, img: Raster)
        requires
            self.evaluates(img, ErrCalc::Square),
        ensures
            self.raw_error(img, ErrCalc::Square) == self.squared_error(img, 0) + self.squared_error(
                img,
                1,
            ) + self.squared_error(img, 2),
    {
        self.lemma_error_is_raw(img, ErrCalc::Square);
    }

    /// Under the mean square metric the error of a chunk, counted once
    /// for every pixel, is its squared error in the three colour channels
    /// less what the division dropped.
    pub proof fn lemma_mean_square_scaled(self, img: Raster)
        requires
            self.evaluates(img, ErrCalc::Mse),
        ensures
            self.pixels() * self.error == self.squared_error(img, 0) + self.squared_error(img, 1)
                + self.squared_error(img, 2) - self.mean_square_loss(img),
            0 <= self.mean_square_loss(img),
            0 <= self.pixels() * self.error,
    {
        let n = self.pixels();
        let s0 = self.squared_error(img, 0);
        let s1 = self.squared_error(img, 1);
        let s2 = self.squared_error(img, 2);
        let x = self.x as int;
        let y = self.y as int;
        let w = self.width as int;
        let h = self.height as int;
        let q = Quantity::SquaredDeviation(self.color);
        lemma_mean_fits(img, x, y, w, h, 0);
        lemma_region_sum_bounds(img, x, y, w, h, q, 0);
        lemma_region_sum_bounds(img, x, y, w, h, q, 1);
        lemma_region_sum_bounds(img, x, y, w, h, q, 2);
        self.lemma_error_is_raw(img, ErrCalc::Mse);
        let e0 = s0 / n;
        let e1 = s1 / n;
        let e2 = s2 / n;
        // No channel exceeds the square of a sample, so the error is not held
        // at the largest value.
        assert(0 <= e0 <= 65025 && 0 <= e1 <= 65025 && 0 <= e2 <= 65025) by (nonlinear_arith)
            requires
                n >= 1,
                0 <= s0 <= n * 65025,
                0 <= s1 <= n * 65025,
                0 <= s2 <= n * 65025,
                e0 == s0 / n,
                e1 == s1 / n,
                e2 == s2 / n,
        ;
        assert(self.error == e0 + e1 + e2);
        vstd::arithmetic::div_mod::lemma_fundamental_div_mod(s0, n);
        vstd::arithmetic::div_mod::lemma_fundamental_div_mod(s1, n);
        vstd::arithmetic::div_mod::lemma_fundamental_div_mod(s2, n);
        assert(n * (e0 + e1 + e2) == n * e0 + n * e1 + n * e2 && 0 <= n * (e0 + e1 + e2))
            by (nonlinear_arith)
            requires
                n >= 1,
                0 <= e0,
                0 <= e1,
                0 <= e2,
        ;
    }

    /// Children that round their means well pay nothing for the rounding.
    pub proof fn lemma_rounding_well_costs_nothing(self, img: Raster, metric: ErrCalc)
        requires
            self.evaluates(img, metric),
            self.children_round_well(img, metric),
        ensures
            total_cost(self.children(img, metric), img, self.color) <= 0,
    {
        let kids = self.children(img, metric);
        self.lemma_children_tile(img, metric);
        reveal_with_fuel(cost_of_first, 5);
        assert forall|i: int| 0 <= i < kids.len() implies (#[trigger] kids[i]).cost_against(
            img,
            self.color,
        ) <= 0 by {
            let kid = kids[i];
            assert(kid.rounds_no_worse_than(img, self.color));
            assert forall|k: int| 0 <= k < 4 implies counted(
                #[trigger] kid.cost_in(img, self.color, k),
                k,
            ) <= 0 by {
                lemma_rounding_cost(
                    img,
                    kid.x as int,
                    kid.y as int,
                    kid.width as int,
                    kid.height as int,
                    self.color,
                    k,
                );
            }
        }
    }
}

/// Under the square metric a split changes the error by what rounding
/// their means costs the children, and by no more: the errors of the
/// children come to at most the error of the chunk and that cost. This is
/// stated for a chunk whose error fits 64 bits.
pub proof fn split_changes_square_error_by_rounding(parent: Chunk, img: Raster)
    requires
        parent.evaluates(img, ErrCalc::Square),
        parent.error < u64::MAX,
    ensures
        total_error(parent.children(img, ErrCalc::Square)) <= parent.error + total_cost(
            parent.children(img, ErrCalc::Square),
            img,
            parent.color,
        ),
{
    let metric = ErrCalc::Square;
    let kids = parent.children(img, metric);
    parent.lemma_children_tile(img, metric);
    parent.lemma_error_is_raw(img, metric);
    parent.lemma_square_error_is_sum(img);
    parent.lemma_children_squared_error(img, metric, 0);
    parent.lemma_children_squared_error(img, metric, 1);
    parent.lemma_children_squared_error(img, metric, 2);
    reveal_with_fuel(error_of_first, 5);
    reveal_with_fuel(cost_of_first, 5);
    assert forall|i: int| 0 <= i < kids.len() implies 0 <= (#[trigger] kids[i]).error
        <= kids[i].squared_error(img, 0) + kids[i].squared_error(img, 1) + kids[i].squared_error(
        img,
        2,
    ) by {
        kids[i].lemma_error_is_raw(img, metric);
        kids[i].lemma_square_error_is_sum(img);
    }
}

/// Under the square metric, splitting a chunk does not raise the error:
/// the errors of its children come to no more than its own. This is
/// stated for a chunk whose error fits 64 bits and whose children pay
/// nothing, all told, for the rounding of their means; where they do, the
/// split raises the error by what they pay.
pub proof fn split_keeps_square_error(parent: Chunk, img: Raster)
    requires
        parent.evaluates(img, ErrCalc::Square),
        parent.error < u64::MAX,
        total_cost(parent.children(img, ErrCalc::Square), img, parent.color) <= 0,
    ensures
        total_error(parent.children(img, ErrCalc::Square)) <= parent.error,
{
    split_changes_square_error_by_rounding(parent, img);
}

/// Under the mean square metric, splitting a chunk does not raise the
/// error counted once for every pixel: that of its children comes to no
/// more than its own. This is stated for a chunk whose children make up,
/// by what the division of their mean squares drops, for what the
/// rounding of their means costs them and for what the division drops of
/// the chunk itself; where they do not, the split raises the error by the
/// difference.
pub proof fn split_keeps_mean_square_error(parent: Chunk, img: Raster)
    requires
        parent.evaluates(img, ErrCalc::Mse),
        total_cost(parent.children(img, ErrCalc::Mse), img, parent.color) + parent.mean_square_loss(
            img,
        ) <= total_loss(parent.children(img, ErrCalc::Mse), img),
    ensures
        total_pixel_error(parent.children(img, ErrCalc::Mse)) <= parent.pixels() * parent.error,
{
    let metric = ErrCalc::Mse;
    let kids = parent.children(img, metric);
    parent.lemma_children_tile(img, metric);
    parent.lemma_mean_square_scaled(img);
    parent.lemma_children_squared_error(img, metric, 0);
    parent.lemma_children_squared_error(img, metric, 1);
    parent.lemma_children_squared_error(img, metric, 2);
    reveal_with_fuel(pixel_error_of_first, 5);
    reveal_with_fuel(cost_of_first, 5);
    reveal_with_fuel(loss_of_first, 5);
    assert forall|i: int| 0 <= i < kids.len() implies (#[trigger] kids[i]).pixels() * kids[i].error
        == kids[i].squared_error(img, 0) + kids[i].squared_error(img, 1) + kids[i].squared_error(
        img,
        2,
    ) - kids[i].mean_square_loss(img) by {
        kids[i].lemma_mean_square_scaled(img);
    }
}

/// A chunk whose mean square is exact and whose children round their
/// means well meets what [`split_keeps_mean_square_error`] asks.
pub proof fn exact_means_keep_mean_square_error(parent: Chunk, img: Raster)
    requires
        parent.evaluates(img, ErrCalc::Mse),
        parent.mean_square_is_exact(img),
        parent.children_round_well(img, ErrCalc::Mse),
    ensures
        total_cost(parent.children(img, ErrCalc::Mse), img, parent.color) + parent.mean_square_loss(
            img,
        ) <= total_loss(parent.children(img, ErrCalc::Mse), img),
{
    let metric = ErrCalc::Mse;
    let kids = parent.children(img, metric);
    parent.lemma_children_tile(img, metric);
    parent.lemma_rounding_well_costs_nothing(img, metric);
    reveal_with_fuel(loss_of_first, 5);
    assert(parent.squared_error(img, 0) % parent.pixels() == 0);
    assert(parent.squared_error(img, 1) % parent.pixels() == 0);
    assert(parent.squared_error(img, 2) % parent.pixels() == 0);
    assert forall|i: int| 0 <= i < kids.len() implies 0 <= (#[trigger] kids[i]).mean_square_loss(
        img,
    ) by {
        kids[i].lemma_mean_square_scaled(img);
    }
}

} // verus!
