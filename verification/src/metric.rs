//! Error metrics: the mean colour of a rectangle of pixels and how far the
//! pixels lie from it.

use vstd::prelude::*;
use crate::raster::{Color, Raster, pixel_at, raster_height, raster_width};
use crate::sums::{
    Quantity, channel, distance, lemma_partial_sum_fits, lemma_region_sum_bounds,
    lemma_square_difference, lemma_term_bounds, lemma_uniform_region_sum, partial_sum, region_sum,
    term, uniform,
};

verus! {

/// How the error of a region is measured.
#[derive(Clone, Copy, Debug, PartialEq, Eq, Structural)]
pub enum ErrCalc {
    /// Sum of absolute deviations from the mean.
    Linear,
    /// Sum of squared deviations from the mean.
    Square,
    /// Mean of squared deviations from the mean.
    Mse,
}

/// One number per colour channel, wide enough for a sum over every pixel
/// of the largest image.
#[derive(Clone, Copy, Debug, PartialEq, Eq, Structural)]
pub struct ColorError {
    pub r: u128,
    pub g: u128,
    pub b: u128,
    pub a: u128,
}

/// Whether the rectangle lies inside the image. It may be empty.
pub open spec fn region_in_raster(img: Raster, x: int, y: int, w: int, h: int) -> bool {
    &&& 0 <= x
    &&& 0 <= y
    &&& 0 <= w
    &&& 0 <= h
    &&& x + w <= raster_width(img)
    &&& y + h <= raster_height(img)
}

/// Whether the rectangle lies inside the image and holds a pixel.
pub open spec fn region_valid(img: Raster, x: int, y: int, w: int, h: int) -> bool {
    region_in_raster(img, x, y, w, h) && w >= 1 && h >= 1
}

/// Integer mean of channel `k` over a region, rounded towards zero.
pub open spec fn mean_channel(img: Raster, x: int, y: int, w: int, h: int, k: int) -> int {
    region_sum(img, x, y, w, h, Quantity::Sample, k) / (w * h)
}

/// The representative colour of a region: its mean, channel by channel.
pub open spec fn region_mean(img: Raster, x: int, y: int, w: int, h: int) -> Color {
    Color {
        r: mean_channel(img, x, y, w, h, 0) as u8,
        g: mean_channel(img, x, y, w, h, 1) as u8,
        b: mean_channel(img, x, y, w, h, 2) as u8,
        a: mean_channel(img, x, y, w, h, 3) as u8,
    }
}

/// The error of channel `k` of a region under a metric, measured against
/// the mean colour of the region.
pub open spec fn channel_error(
    img: Raster,
    x: int,
    y: int,
    w: int,
    h: int,
    metric: ErrCalc,
    k: int,
) -> int {
    let mean = region_mean(img, x, y, w, h);
    match metric {
        ErrCalc::Linear => region_sum(img, x, y, w, h, Quantity::Deviation(mean), k),
        ErrCalc::Square => region_sum(img, x, y, w, h, Quantity::SquaredDeviation(mean), k),
        ErrCalc::Mse => region_sum(img, x, y, w, h, Quantity::SquaredDeviation(mean), k) / (w
            * h),
    }
}

impl ColorError {
    /// Whether each channel holds the partial sum of `q` after `rows` rows
    /// and `cols` further pixels.
    pub open spec fn sums_partial(
        self,
        img: Raster,
        x: int,
        y: int,
        w: int,
        rows: int,
        cols: int,
        q: Quantity,
    ) -> bool {
        &&& self.r == partial_sum(img, x, y, w, rows, cols, q, 0)
        &&& self.g == partial_sum(img, x, y, w, rows, cols, q, 1)
        &&& self.b == partial_sum(img, x, y, w, rows, cols, q, 2)
        &&& self.a == partial_sum(img, x, y, w, rows, cols, q, 3)
    }

    /// Whether each channel holds the sum of `q` over the region.
    pub open spec fn sums(self, img: Raster, x: int, y: int, w: int, h: int, q: Quantity) -> bool {
        &&& self.r == region_sum(img, x, y, w, h, q, 0)
        &&& self.g == region_sum(img, x, y, w, h, q, 1)
        &&& self.b == region_sum(img, x, y, w, h, q, 2)
        &&& self.a == region_sum(img, x, y, w, h, q, 3)
    }

    /// Whether each channel holds the error of the region under `metric`.
    pub open spec fn is_error_of(
        self,
        img: Raster,
        x: int,
        y: int,
        w: int,
        h: int,
        metric: ErrCalc,
    ) -> bool {
        &&& self.r == channel_error(img, x, y, w, h, metric, 0)
        &&& self.g == channel_error(img, x, y, w, h, metric, 1)
        &&& self.b == channel_error(img, x, y, w, h, metric, 2)
        &&& self.a == channel_error(img, x, y, w, h, metric, 3)
    }
}

/// The mean of a channel over a region that holds a pixel is a sample
/// value.
pub proof fn lemma_mean_fits(img: Raster, x: int, y: int, w: int, h: int, k: int)
    requires
        w >= 1,
        h >= 1,
    ensures
        0 <= mean_channel(img, x, y, w, h, k) <= 255,
        w * h >= 1,
{
    lemma_region_sum_bounds(img, x, y, w, h, Quantity::Sample, k);
    let total = region_sum(img, x, y, w, h, Quantity::Sample, k);
    let n = w * h;
    assert(n >= 1) by (nonlinear_arith)
        requires
            n == w * h,
            w >= 1,
            h >= 1,
    ;
    assert(0 <= total / n <= 255) by (nonlinear_arith)
        requires
            0 <= total <= n * 255,
            n >= 1,
    ;
}

/// Distance between two samples.
fn sample_distance(a: u8, b: u8) -> (d: u8)
    ensures
        d == distance(a as int, b as int),
{
    if a >= b {
        a - b
    } else {
        b - a
    }
}

/// What one sample adds to the sum of `q`, given the sample of the base
/// colour in the same channel.
fn sample_term(q: Quantity, v: u8, base: u8) -> (t: u128)
    ensures
        q is Sample ==> t == v,
        q is Deviation ==> t == distance(v as int, base as int),
        q is SquaredDeviation ==> t == (v - base) * (v - base),
{
    match q {
        Quantity::Sample => v as u128,
        Quantity::Deviation(_) => sample_distance(v, base) as u128,
        Quantity::SquaredDeviation(_) => {
            let d = sample_distance(v, base) as u128;
            assert(d * d == (v - base) * (v - base) && d * d <= 65025) by (nonlinear_arith)
                requires
                    d == v - base || d == base - v,
                    d <= 255,
            ;
            d * d
        },
    }
}

/// What one pixel adds to the sum of `q`, channel by channel.
fn pixel_terms(q: Quantity, c: Color) -> (t: ColorError)
    ensures
        t.r == term(q, 0, c),
        t.g == term(q, 1, c),
        t.b == term(q, 2, c),
        t.a == term(q, 3, c),
{
    let base = match q {
        Quantity::Sample => c,
        Quantity::Deviation(base) => base,
        Quantity::SquaredDeviation(base) => base,
    };
    ColorError {
        r: sample_term(q, c.r, base.r),
        g: sample_term(q, c.g, base.g),
        b: sample_term(q, c.b, base.b),
        a: sample_term(q, c.a, base.a),
    }
}

/// Sums `q` over every pixel of a region, channel by channel.
pub fn region_totals(img: &Raster, x: u32, y: u32, w: u32, h: u32, q: Quantity) -> (e: ColorError)
    requires
        region_in_raster(*img, x as int, y as int, w as int, h as int),
    ensures
        e.sums(*img, x as int, y as int, w as int, h as int, q),
{
    let mut acc = ColorError { r: 0, g: 0, b: 0, a: 0 };
    let mut j: u32 = 0;
    while j < h
        invariant
            j <= h,
            region_in_raster(*img, x as int, y as int, w as int, h as int),
            acc.sums_partial(*img, x as int, y as int, w as int, j as int, 0, q),
        decreases h - j,
    {
        let mut i: u32 = 0;
        while i < w
            invariant
                i <= w,
                j < h,
                region_in_raster(*img, x as int, y as int, w as int, h as int),
                acc.sums_partial(*img, x as int, y as int, w as int, j as int, i as int, q),
            decreases w - i,
        {
            let p = pixel_at(img, x + i, y + j);
            let t = pixel_terms(q, p);
            proof {
                lemma_partial_sum_fits(*img, x as int, y as int, w as int, j as int, i as int, q, 0);
                lemma_partial_sum_fits(*img, x as int, y as int, w as int, j as int, i as int, q, 1);
                lemma_partial_sum_fits(*img, x as int, y as int, w as int, j as int, i as int, q, 2);
                lemma_partial_sum_fits(*img, x as int, y as int, w as int, j as int, i as int, q, 3);
                lemma_term_bounds(q, 0, p);
                lemma_term_bounds(q, 1, p);
                lemma_term_bounds(q, 2, p);
                lemma_term_bounds(q, 3, p);
            }
            acc = ColorError { r: acc.r + t.r, g: acc.g + t.g, b: acc.b + t.b, a: acc.a + t.a };
            i = i + 1;
        }
        j = j + 1;
    }
    acc
}

/// The number of pixels of a `w` by `h` rectangle.
pub fn pixel_count(w: u32, h: u32) -> (n: u128)
    ensures
        n == w * h,
        w >= 1 && h >= 1 ==> n >= 1,
{
    assert(0 <= w * h <= 0xffff_ffff * 0xffff_ffff && (w >= 1 && h >= 1 ==> w * h >= 1))
        by (nonlinear_arith)
        requires
            0 <= w <= 0xffff_ffff,
            0 <= h <= 0xffff_ffff,
    ;
    (w as u128) * (h as u128)
}

/// The mean colour of a region, each channel rounded towards zero.
pub fn mean(img: &Raster, x: u32, y: u32, w: u32, h: u32) -> (c: Color)
    requires
        region_valid(*img, x as int, y as int, w as int, h as int),
    ensures
        c == region_mean(*img, x as int, y as int, w as int, h as int),
{
    let total = region_totals(img, x, y, w, h, Quantity::Sample);
    let count = pixel_count(w, h);
    proof {
        lemma_mean_fits(*img, x as int, y as int, w as int, h as int, 0);
        lemma_mean_fits(*img, x as int, y as int, w as int, h as int, 1);
        lemma_mean_fits(*img, x as int, y as int, w as int, h as int, 2);
        lemma_mean_fits(*img, x as int, y as int, w as int, h as int, 3);
    }
    Color {
        r: (total.r / count) as u8,
        g: (total.g / count) as u8,
        b: (total.b / count) as u8,
        a: (total.a / count) as u8,
    }
}

/// Total absolute deviation of a region from a base colour.
pub fn abs_err(img: &Raster, x: u32, y: u32, w: u32, h: u32, base: Color) -> (e: ColorError)
    requires
        region_in_raster(*img, x as int, y as int, w as int, h as int),
    ensures
        e.sums(*img, x as int, y as int, w as int, h as int, Quantity::Deviation(base)),
{
    region_totals(img, x, y, w, h, Quantity::Deviation(base))
}

/// Total squared deviation of a region from a base colour.
pub fn abs_err_sq(img: &Raster, x: u32, y: u32, w: u32, h: u32, base: Color) -> (e: ColorError)
    requires
        region_in_raster(*img, x as int, y as int, w as int, h as int),
    ensures
        e.sums(*img, x as int, y as int, w as int, h as int, Quantity::SquaredDeviation(base)),
{
    region_totals(img, x, y, w, h, Quantity::SquaredDeviation(base))
}

/// The linear metric: the mean colour of a region and the total absolute
/// deviation of its pixels from that mean.
pub fn linear_err(img: &Raster, x: u32, y: u32, w: u32, h: u32) -> (r: (ColorError, Color))
    requires
        region_valid(*img, x as int, y as int, w as int, h as int),
    ensures
        r.1 == region_mean(*img, x as int, y as int, w as int, h as int),
        r.0.is_error_of(*img, x as int, y as int, w as int, h as int, ErrCalc::Linear),
{
    let mean = mean(img, x, y, w, h);
    let output = abs_err(img, x, y, w, h, mean);
    (output, mean)
}

/// The square metric: the mean colour of a region and the total squared
/// deviation of its pixels from that mean.
pub fn square_err(img: &Raster, x: u32, y: u32, w: u32, h: u32) -> (r: (ColorError, Color))
    requires
        region_valid(*img, x as int, y as int, w as int, h as int),
    ensures
        r.1 == region_mean(*img, x as int, y as int, w as int, h as int),
        r.0.is_error_of(*img, x as int, y as int, w as int, h as int, ErrCalc::Square),
{
    let mean = mean(img, x, y, w, h);
    let output = abs_err_sq(img, x, y, w, h, mean);
    (output, mean)
}

/// The mean squared error metric: the mean colour of a region and, per
/// channel, the squared deviation of its pixels divided by their number.
pub fn mse(img: &Raster, x: u32, y: u32, w: u32, h: u32) -> (r: (ColorError, Color))
    requires
        region_valid(*img, x as int, y as int, w as int, h as int),
    ensures
        r.1 == region_mean(*img, x as int, y as int, w as int, h as int),
        r.0.is_error_of(*img, x as int, y as int, w as int, h as int, ErrCalc::Mse),
{
    let (output, mean) = square_err(img, x, y, w, h);
    let count = pixel_count(w, h);
    let output = ColorError {
        r: output.r / count,
        g: output.g / count,
        b: output.b / count,
        a: output.a / count,
    };
    (output, mean)
}

impl ErrCalc {
    /// Evaluates a region under this metric: its representative colour and
    /// its error, channel by channel.
    pub fn evaluate(self, img: &Raster, x: u32, y: u32, w: u32, h: u32) -> (r: (ColorError, Color))
        requires
            region_valid(*img, x as int, y as int, w as int, h as int),
        ensures
            r.1 == region_mean(*img, x as int, y as int, w as int, h as int),
            r.0.is_error_of(*img, x as int, y as int, w as int, h as int, self),
    {
        match self {
            ErrCalc::Linear => linear_err(img, x, y, w, h),
            ErrCalc::Square => square_err(img, x, y, w, h),
            ErrCalc::Mse => mse(img, x, y, w, h),
        }
    }
}

/// All three metrics agree on a region of one colour: its mean is that
/// colour and its error is zero in every channel.
pub proof fn uniform_region_is_exact(
    img: Raster,
    x: int,
    y: int,
    w: int,
    h: int,
    c: Color,
    metric: ErrCalc,
)
    requires
        w >= 1,
        h >= 1,
        uniform(img, x, y, w, h, c),
    ensures
        region_mean(img, x, y, w, h) == c,
        forall|k: int| 0 <= k < 4 ==> #[trigger] channel_error(img, x, y, w, h, metric, k) == 0,
{
    let n = w * h;
    assert(n >= 1) by (nonlinear_arith)
        requires
            n == w * h,
            w >= 1,
            h >= 1,
    ;
    assert forall|k: int| 0 <= k < 4 implies mean_channel(img, x, y, w, h, k) == channel(c, k) by {
        lemma_uniform_region_sum(img, x, y, w, h, c, Quantity::Sample, k);
        let v = channel(c, k);
        assert((n * v) / n == v) by (nonlinear_arith)
            requires
                n >= 1,
        ;
    }
    assert(mean_channel(img, x, y, w, h, 0) == channel(c, 0));
    assert(mean_channel(img, x, y, w, h, 1) == channel(c, 1));
    assert(mean_channel(img, x, y, w, h, 2) == channel(c, 2));
    assert(mean_channel(img, x, y, w, h, 3) == channel(c, 3));
    assert(region_mean(img, x, y, w, h) == c);
    assert forall|k: int| 0 <= k < 4 implies #[trigger] channel_error(img, x, y, w, h, metric, k)
        == 0 by {
        lemma_uniform_region_sum(img, x, y, w, h, c, Quantity::Deviation(c), k);
        lemma_uniform_region_sum(img, x, y, w, h, c, Quantity::SquaredDeviation(c), k);
        assert(0int / n == 0) by (nonlinear_arith)
            requires
                n >= 1,
        ;
    }
}

/// By how much the squared deviation of a region from its mean colour
/// exceeds, in channel `k`, that from a colour whose sample there is `m`.
/// The true mean would never do worse; the mean rounded towards zero can,
/// by what the rounding took off.
pub open spec fn rounding_cost(img: Raster, x: int, y: int, w: int, h: int, k: int, m: int) -> int {
    let n = w * h;
    let total = region_sum(img, x, y, w, h, Quantity::Sample, k);
    let e = m - total / n;
    e * (2 * (total % n) - n * e)
}

/// Whether rounding the mean of channel `k` of a region towards zero does
/// no worse, in squared deviation, than the sample value `m` would: that
/// fails only where `m` is the mean rounded up and the true mean lies
/// nearer to it.
pub open spec fn truncation_favours(img: Raster, x: int, y: int, w: int, h: int, k: int, m: int) -> bool {
    let n = w * h;
    let total = region_sum(img, x, y, w, h, Quantity::Sample, k);
    !(m == total / n + 1 && 2 * (total % n) > n)
}

/// The squared deviation of a region from its mean colour is that from
/// any other colour and the rounding cost against it. The cost is above
/// zero only against the one colour whose sample is the mean rounded up,
/// and only where the true mean lies nearer to that.
pub proof fn lemma_rounding_cost(img: Raster, x: int, y: int, w: int, h: int, c: Color, k: int)
    requires
        w >= 1,
        h >= 1,
        0 <= k < 4,
    ensures
        region_sum(
            img,
            x,
            y,
            w,
            h,
            Quantity::SquaredDeviation(region_mean(img, x, y, w, h)),
            k,
        ) == region_sum(img, x, y, w, h, Quantity::SquaredDeviation(c), k) + rounding_cost(
            img,
            x,
            y,
            w,
            h,
            k,
            channel(c, k),
        ),
        rounding_cost(img, x, y, w, h, k, channel(c, k)) <= 0 <==> truncation_favours(
            img,
            x,
            y,
            w,
            h,
            k,
            channel(c, k),
        ),
{
    let mean = region_mean(img, x, y, w, h);
    let n = w * h;
    let total = region_sum(img, x, y, w, h, Quantity::Sample, k);
    lemma_mean_fits(img, x, y, w, h, k);
    lemma_square_difference(img, x, y, w, h, mean, c, k);
    let m0 = channel(mean, k);
    let m = channel(c, k);
    let r = total % n;
    vstd::arithmetic::div_mod::lemma_fundamental_div_mod(total, n);
    // With `e` the distance of `m` from the mean `m0`, and `r` what rounding
    // the mean took off the total, the cost is `e * (2 * r - n * e)`. That
    // is above zero only for `e == 1` and `2 * r > n`.
    let e = m - m0;
    let gap = 2 * total - n * (m0 + m);
    assert(gap == 2 * r - n * e) by (nonlinear_arith)
        requires
            total == n * m0 + r,
            gap == 2 * total - n * (m0 + m),
            e == m - m0,
    ;
    let cost = e * gap;
    if e == 0 {
        assert(cost == 0) by (nonlinear_arith)
            requires
                cost == e * gap,
                e == 0,
        ;
    } else if e == 1 {
        assert(cost == 2 * r - n) by (nonlinear_arith)
            requires
                cost == e * gap,
                gap == 2 * r - n * e,
                e == 1,
        ;
    } else if e >= 2 {
        assert(cost < 0) by (nonlinear_arith)
            requires
                cost == e * gap,
                gap == 2 * r - n * e,
                e >= 2,
                0 <= r < n,
        ;
    } else {
        assert(cost < 0) by (nonlinear_arith)
            requires
                cost == e * gap,
                gap == 2 * r - n * e,
                e <= -1,
                0 <= r < n,
        ;
    }
}

} // verus!
