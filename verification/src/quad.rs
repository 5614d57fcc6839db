//! The quadtree: an image, the chunks that approximate it, and the greedy
//! refinement that always splits the chunk of largest error.

use vstd::multiset::Multiset;
use vstd::prelude::*;
use crate::chunk::{Chunk, evaluation};
use crate::exhaustion::{enough_steps_subdivide_fully, step_bound};
use crate::metric::ErrCalc;
use crate::queue::{SubdivisionQueue, by_rank, ranked_down};
use crate::raster::{
    Color, Raster, blank, dimensions, in_raster, pixel, put_pixel, raster_height, raster_width,
    rgba8_of, same_raster,
};
use crate::refinement::{
    Approximation, exhausted_is_fully_subdivided, fully_subdivided, lemma_refined_extends,
    lemma_step_keeps_valid, lemma_tiling_partitions, partitions, refined, refinement_of,
    refinement_of_pixels_is_idle, refinement_within_is_determined, refines_within, step_on,
};

verus! {

/// The colour of the outline drawn around chunks: opaque black.
pub open spec fn border() -> Color {
    Color { r: 0, g: 0, b: 0, a: 255 }
}

/// Whether the pixel `(px, py)` lies on the outline of a chunk: in its
/// first or last column or row.
pub open spec fn on_edge(c: Chunk, px: int, py: int) -> bool {
    px == c.x || px + 1 == c.x + c.width || py == c.y || py + 1 == c.y + c.height
}

/// The colour that a chunk gives to a pixel it covers.
pub open spec fn paint(c: Chunk, px: int, py: int, with_borders: bool) -> Color {
    if with_borders && on_edge(c, px, py) {
        border()
    } else {
        c.color
    }
}

/// Paints the rectangle of a chunk into an image and leaves every other
/// pixel as it was.
fn paint_chunk(scratch: &mut Raster, chunk: Chunk, with_borders: bool)
    requires
        chunk.x + chunk.width <= raster_width(*old(scratch)),
        chunk.y + chunk.height <= raster_height(*old(scratch)),
    ensures
        raster_width(*final(scratch)) == raster_width(*old(scratch)),
        raster_height(*final(scratch)) == raster_height(*old(scratch)),
        forall|px: int, py: int|
            #[trigger] pixel(*final(scratch), px, py) == if chunk.covers(px, py) {
                paint(chunk, px, py, with_borders)
            } else {
                pixel(*old(scratch), px, py)
            },
{
    let (x0, x1) = (chunk.x, chunk.x + chunk.width);
    let (y0, y1) = (chunk.y, chunk.y + chunk.height);
    let mut y = y0;
    while y < y1
        invariant
            y0 <= y <= y1,
            x0 == chunk.x,
            x1 == chunk.x + chunk.width,
            y0 == chunk.y,
            y1 == chunk.y + chunk.height,
            x1 <= raster_width(*scratch),
            y1 <= raster_height(*scratch),
            raster_width(*scratch) == raster_width(*old(scratch)),
            raster_height(*scratch) == raster_height(*old(scratch)),
            forall|px: int, py: int|
                #[trigger] pixel(*scratch, px, py) == if chunk.covers(px, py) && py < y {
                    paint(chunk, px, py, with_borders)
                } else {
                    pixel(*old(scratch), px, py)
                },
        decreases y1 - y,
    {
        let mut x = x0;
        while x < x1
            invariant
                x0 <= x <= x1,
                y0 <= y < y1,
                x0 == chunk.x,
                x1 == chunk.x + chunk.width,
                y0 == chunk.y,
                y1 == chunk.y + chunk.height,
                x1 <= raster_width(*scratch),
                y1 <= raster_height(*scratch),
                raster_width(*scratch) == raster_width(*old(scratch)),
                raster_height(*scratch) == raster_height(*old(scratch)),
                forall|px: int, py: int|
                    #[trigger] pixel(*scratch, px, py) == if chunk.covers(px, py) && (py < y || (py
                        == y && px < x)) {
                        paint(chunk, px, py, with_borders)
                    } else {
                        pixel(*old(scratch), px, py)
                    },
            decreases x1 - x,
        {
            let color = if with_borders && (x == x0 || x + 1 == x1 || y == y0 || y + 1 == y1) {
                Color { r: 0, g: 0, b: 0, a: 255 }
            } else {
                chunk.color
            };
            let ghost earlier = *scratch;
            put_pixel(scratch, x, y, color);
            proof {
                assert forall|px: int, py: int| #[trigger]
                    pixel(*scratch, px, py) == if px == x && py == y {
                        color
                    } else {
                        pixel(earlier, px, py)
                    } by {}
            }
            x = x + 1;
        }
        y = y + 1;
    }
}

/// An image and its approximation by chunks.
pub struct Quad {
    chunks: SubdivisionQueue,
    img: Raster,
    err_calc: ErrCalc,
}

impl View for Quad {
    type V = Approximation;

    closed spec fn view(&self) -> Approximation {
        Approximation { frontier: self.chunks.frontier(), finished: self.chunks.finished() }
    }
}

impl Quad {
    /// The image that is approximated.
    pub closed spec fn image(&self) -> Raster {
        self.img
    }

    /// The metric by which chunks are evaluated.
    pub closed spec fn metric(&self) -> ErrCalc {
        self.err_calc
    }

    /// Every chunk of the approximation, in the order in which `snapshot`
    /// lists them: that of their rank, the highest first.
    pub open spec fn listing(&self) -> Seq<Chunk> {
        by_rank(self@.chunks())
    }

    /// Whether the approximation is valid and the queue is in order.
    pub closed spec fn wf(&self) -> bool {
        &&& self.chunks.wf()
        &&& self@.valid(self.img, self.err_calc)
    }

    /// In every state the approximation is valid: the chunks partition
    /// the image, and each has the colour and error of its rectangle.
    pub proof fn chunks_tile_image(&self)
        requires
            self.wf(),
        ensures
            self@.valid(self.image(), self.metric()),
    {
    }

    /// Rendering depends on the state and the flag alone: two renderings
    /// of one state agree in size and in every pixel.
    pub proof fn render_is_determined(&self, with_borders: bool, first: Raster, second: Raster)
        requires
            self.wf(),
            self.renders(with_borders, first),
            self.renders(with_borders, second),
        ensures
            same_raster(first, second),
    {
        assert forall|x: int, y: int| #[trigger] in_raster(first, x, y) implies pixel(first, x, y)
            == pixel(second, x, y) by {
            assert(in_raster(self.img, x, y));
            let c = choose|c: Chunk| self@.chunks().count(c) > 0 && #[trigger] c.covers(x, y);
            assert(pixel(first, x, y) == paint(c, x, y, with_borders));
            assert(pixel(second, x, y) == paint(c, x, y, with_borders));
        }
    }

    /// Whether `out` is the rendering of the approximation: an image of
    /// the same size in which every pixel has the colour that the chunk
    /// covering it gives it.
    pub open spec fn renders(&self, with_borders: bool, out: Raster) -> bool {
        &&& raster_width(out) == raster_width(self.image())
        &&& raster_height(out) == raster_height(self.image())
        &&& forall|c: Chunk, px: int, py: int|
            self@.chunks().count(c) > 0 && #[trigger] c.covers(px, py) ==> pixel(out, px, py)
                == #[trigger] paint(c, px, py, with_borders)
    }

    /// Whether this is the first approximation of `img` under `metric`:
    /// one chunk that spans the image, evaluated, in the frontier.
    pub open spec fn is_seed_of(&self, img: Raster, metric: ErrCalc) -> bool {
        &&& self.wf()
        &&& self.image() == img
        &&& self.metric() == metric
        &&& self@.frontier == Multiset::singleton(
            evaluation(img, 0, 0, raster_width(img) as int, raster_height(img) as int, metric),
        )
        &&& self@.finished == Multiset::<Chunk>::empty()
    }

    /// Approximates an RGBA image by one chunk that spans it. The image
    /// must hold a pixel.
    pub fn from_rgba(img: Raster, err_calc: ErrCalc) -> (q: Self)
        requires
            raster_width(img) >= 1,
            raster_height(img) >= 1,
        ensures
            q.is_seed_of(img, err_calc),
    {
        let (width, height) = dimensions(&img);
        let start = Chunk::from_img(&img, 0, 0, width, height, err_calc);
        let mut chunks = SubdivisionQueue::new();
        chunks.insert(start);
        let q = Quad { chunks, img, err_calc };
        proof {
            let m = q@.chunks();
            assert(q@.frontier =~= Multiset::singleton(start));
            assert forall|px: int, py: int| #[trigger] in_raster(img, px, py) implies exists|
                c: Chunk,
            | m.count(c) > 0 && #[trigger] c.covers(px, py) by {
                assert(m.count(start) > 0 && start.covers(px, py));
            }
        }
        q
    }

    /// Converts a decoded image to RGBA and approximates it by one chunk
    /// that spans it. The image must have an RGBA rendition, and that must
    /// hold a pixel.
    pub fn from_img(img: image::DynamicImage, err_calc: ErrCalc) -> (q: Self)
        requires
            rgba8_of(img) matches Some(rgba) && raster_width(rgba) >= 1 && raster_height(rgba) >= 1,
        ensures
            q.is_seed_of(rgba8_of(img).unwrap(), err_calc),
    {
        let img = Raster::from_image(img).unwrap();
        Quad::from_rgba(img, err_calc)
    }

    /// As [`Quad::from_img`], for any image: `None` where it has no RGBA
    /// rendition or holds no pixel.
    pub fn try_from_img(img: image::DynamicImage, err_calc: ErrCalc) -> (r: Option<Self>)
        ensures
            r is Some <==> (rgba8_of(img) matches Some(rgba) && raster_width(rgba) >= 1
                && raster_height(rgba) >= 1),
            r matches Some(q) ==> q.is_seed_of(rgba8_of(img).unwrap(), err_calc),
    {
        match Raster::from_image(img) {
            Some(img) => {
                let (width, height) = dimensions(&img);
                if width == 0 || height == 0 {
                    None
                } else {
                    Some(Quad::from_rgba(img, err_calc))
                }
            },
            None => None,
        }
    }

    /// Performs up to `depth` refinement steps: each takes the chunk of
    /// largest error from the frontier, among several of them the one of
    /// highest rank, and puts its children in its place. Where it ends
    /// depends on the chunks it sets out from and on `depth` alone, so that
    /// refinement can be resumed: two calls do what one call of the summed
    /// depth does.
    /// Stops early when the frontier is empty, which is no failure: every
    /// chunk is then a single pixel. A `depth` of at least the
    /// [`step_bound`] of the state is enough to get there.
    pub fn process(&mut self, depth: u32)
        requires
            old(self).wf(),
        ensures
            final(self).wf(),
            final(self).image() == old(self).image(),
            final(self).metric() == old(self).metric(),
            refines_within(
                old(self).image(),
                old(self).metric(),
                old(self)@,
                final(self)@,
                depth as nat,
            ),
            final(self)@ == refinement_of(
                old(self).image(),
                old(self).metric(),
                old(self)@,
                depth as nat,
            ),
            fully_subdivided(old(self)@.chunks()) ==> final(self)@.chunks() == old(self)@.chunks(),
            final(self)@.frontier.len() == 0 ==> fully_subdivided(final(self)@.chunks()),
            step_bound(old(self)@, old(self).image()) <= depth ==> fully_subdivided(
                final(self)@.chunks(),
            ),
    {
        let mut done: u32 = 0;
        while done < depth
            invariant_except_break
                refined(old(self).image(), old(self).metric(), old(self)@, self@, done as nat),
            invariant
                done <= depth,
                self.wf(),
                self.img == old(self).img,
                self.err_calc == old(self).err_calc,
            ensures
                exists|n: nat|
                    n <= depth && #[trigger] refined(
                        old(self).image(),
                        old(self).metric(),
                        old(self)@,
                        self@,
                        n,
                    ) && (n == depth || self@.frontier.len() == 0),
            decreases depth - done,
        {
            let ghost before = self@;
            match self.chunks.pop_max() {
                Some(chunk) => {
                    assert(before.chunks().count(chunk) > 0);
                    let children = chunk.split(&self.img, self.err_calc);
                    self.chunks.insert_all(children);
                    proof {
                        assert(step_on(self.img, self.err_calc, before, self@, chunk));
                        lemma_step_keeps_valid(self.img, self.err_calc, before, self@, chunk);
                        lemma_refined_extends(
                            self.img,
                            self.err_calc,
                            old(self)@,
                            before,
                            self@,
                            done as nat,
                        );
                    }
                },
                None => {
                    assert(self@ == before);
                    break ;
                },
            }
            done = done + 1;
        }
        proof {
            let n = choose|n: nat|
                n <= depth && #[trigger] refined(
                    old(self).image(),
                    old(self).metric(),
                    old(self)@,
                    self@,
                    n,
                ) && (n == depth || self@.frontier.len() == 0);
            refinement_within_is_determined(
                self.img,
                self.err_calc,
                old(self)@,
                self@,
                self@,
                depth as nat,
            );
            if fully_subdivided(old(self)@.chunks()) {
                refinement_of_pixels_is_idle(self.img, self.err_calc, old(self)@, self@, n);
            }
            if self@.frontier.len() == 0 {
                exhausted_is_fully_subdivided(self.img, self.err_calc, self@);
            }
            if step_bound(old(self)@, self.img) <= depth {
                enough_steps_subdivide_fully(
                    self.img,
                    self.err_calc,
                    old(self)@,
                    self@,
                    n,
                    depth as nat,
                );
            }
        }
    }

    /// Every chunk of the approximation, in the order of their rank, the
    /// highest first. They partition the image, and each has the colour
    /// and error of its rectangle.
    pub fn snapshot(&self) -> (r: Vec<Chunk>)
        requires
            self.wf(),
        ensures
            r@ == self.listing(),
            r@.to_multiset() == self@.chunks(),
            ranked_down(r@),
            partitions(r@, self.image()),
            forall|i: int| 0 <= i < r@.len() ==> (#[trigger] r@[i]).evaluates(self.image(), self.metric()),
    {
        let r = self.chunks.snapshot();
        proof {
            lemma_tiling_partitions(r@, self.img, self.err_calc);
            r@.to_multiset_ensures();
            assert forall|i: int| 0 <= i < r@.len() implies (#[trigger] r@[i]).evaluates(
                self.img,
                self.err_calc,
            ) by {
                assert(self@.chunks().count(r@[i]) > 0);
            }
        }
        r
    }

    /// Paints every chunk into a fresh image of the size of the source:
    /// its rectangle in its colour, and with `with_borders` its outline in
    /// opaque black.
    pub fn render(&self, with_borders: bool) -> (out: Raster)
        requires
            self.wf(),
        ensures
            self.renders(with_borders, out),
    {
        let (width, height) = dimensions(&self.img);
        let mut scratch = blank(width, height);
        let chunks = self.chunks.unordered();
        proof {
            chunks@.to_multiset_ensures();
            assert forall|i: int| 0 <= i < chunks@.len() implies self@.chunks().count(
                #[trigger] chunks@[i],
            ) > 0 by {
                assert(chunks@.contains(chunks@[i]));
            }
        }
        let mut n: usize = 0;
        while n < chunks.len()
            invariant
                n <= chunks.len(),
                self.wf(),
                raster_width(scratch) == raster_width(self.img),
                raster_height(scratch) == raster_height(self.img),
                forall|i: int|
                    0 <= i < chunks@.len() ==> self@.chunks().count(#[trigger] chunks@[i]) > 0,
                forall|i: int, px: int, py: int|
                    0 <= i < n && #[trigger] chunks@[i].covers(px, py) ==> pixel(scratch, px, py)
                        == paint(chunks@[i], px, py, with_borders),
            decreases chunks.len() - n,
        {
            let chunk = chunks[n];
            proof {
                // An earlier chunk that shares a pixel with this one is this one.
                assert forall|i: int, px: int, py: int|
                    0 <= i < n && #[trigger] chunks@[i].covers(px, py) && chunk.covers(
                        px,
                        py,
                    ) implies chunks@[i] == chunk by {}
            }
            paint_chunk(&mut scratch, chunk, with_borders);
            n = n + 1;
        }
        proof {
            assert forall|c: Chunk, px: int, py: int|
                self@.chunks().count(c) > 0 && #[trigger] c.covers(px, py) implies pixel(
                scratch,
                px,
                py,
            ) == #[trigger] paint(c, px, py, with_borders) by {
                // The chunk is one of those that were painted.
                let i = choose|i: int| 0 <= i < chunks@.len() && chunks@[i] == c;
            }
        }
        scratch
    }
}

} // verus!
