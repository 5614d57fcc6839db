//! Greedy quadtree approximation of raster images.
//!
//! An image is covered by axis-aligned rectangles, the chunks, each filled
//! with the mean colour of the pixels beneath it. Refinement repeatedly
//! takes the chunk that approximates its pixels worst and puts up to four
//! smaller ones in its place. At every moment the chunks partition the
//! image, so that it can be rendered from them.
//!
//! Among chunks of equal error refinement takes the one whose corner lies
//! higher up in the image, then the one further left. What refinement
//! does therefore depends on the chunks alone: it can be stopped and
//! resumed, and two runs from one state agree.
//!
//! A chunk of a single pixel cannot be split. When refinement takes one it
//! keeps it, set aside from those that may still be split, and goes on to
//! the next; once all have been set aside, further steps change nothing.

pub mod chunk;
pub mod exhaustion;
pub mod metric;
pub mod quad;
pub mod queue;
pub mod raster;
pub mod refinement;
pub mod split_error;
pub mod sums;

pub use crate::chunk::Chunk;
pub use crate::metric::{ColorError, ErrCalc};
pub use crate::quad::Quad;
pub use crate::queue::SubdivisionQueue;
pub use crate::raster::{Color, Raster};
