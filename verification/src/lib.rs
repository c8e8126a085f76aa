//! Progressive mosaic approximation of a raster image.
//!
//! An image is approximated by axis-aligned rectangles of uniform colour. The
//! partition starts as one rectangle covering the whole image and is refined
//! greedily: at every step the rectangle whose best cut removes the most
//! squared colour error is replaced by its two halves. Every intermediate
//! partition is kept as a frame.

pub mod candidate;
pub mod color;
pub mod greedy;
pub mod grid;
pub mod plane;
pub mod rectangle;
pub mod render;
pub mod store;
pub mod sums;
pub mod tiling;

pub use crate::candidate::RectangleSplit;
pub use crate::greedy::{run_greedy, PartitionError};
pub use crate::grid::RGBGrid;
pub use crate::rectangle::{Rectangle, SplitLine};
pub use crate::store::{Store, StoreError};
use vstd::prelude::*;

verus! {

/// One rectangle of a frame: columns `x1..x2`, rows `y1..y2`, painted in
/// `color`, a packed 24-bit value with red in the highest byte.
#[derive(Clone, Copy, Debug, PartialEq, Eq)]
pub struct Rect {
    pub x1: u16,
    pub y1: u16,
    pub x2: u16,
    pub y2: u16,
    pub color: u32,
}

impl Rect {
    /// The part of the image that the rectangle covers.
    pub open spec fn region(self) -> Rectangle {
        Rectangle {
            top: self.y1 as usize,
            left: self.x1 as usize,
            bottom: self.y2 as usize,
            right: self.x2 as usize,
        }
    }
}

/// The parts of the image that the rectangles of a frame cover, in order.
pub open spec fn frame_regions(frame: Seq<Rect>) -> Seq<Rectangle> {
    Seq::new(frame.len(), |i: int| frame[i].region())
}

} // verus!
