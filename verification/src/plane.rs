//! The mathematical model of an image: a grid of three-channel samples.

use crate::sums::{
    grid_sum, lemma_grid_sum_bounds, lemma_grid_sum_cell, lemma_grid_sum_lower,
    lemma_grid_sum_split_cols, lemma_grid_sum_split_rows,
};
use vstd::prelude::*;

verus! {

/// A raster of `width * height` pixels with three channels each, stored row
/// by row with the channels of a pixel next to each other.
pub struct Plane {
    pub width: nat,
    pub height: nat,
    pub samples: Seq<nat>,
}

impl Plane {
    /// `(y, x)` is a pixel of the raster.
    pub open spec fn holds(self, y: int, x: int) -> bool {
        0 <= y < self.height && 0 <= x < self.width
    }

    /// The sample of channel `c` at row `y`, column `x`.
    pub open spec fn value(self, y: int, x: int, c: int) -> int {
        self.samples[(y * self.width + x) * 3 + c] as int
    }

    /// Channel `c` as a function of the position.
    pub open spec fn channel(self, c: int) -> spec_fn(int, int) -> int {
        |y: int, x: int| self.value(y, x, c)
    }

    /// The squares of channel `c` as a function of the position.
    pub open spec fn channel_squared(self, c: int) -> spec_fn(int, int) -> int {
        |y: int, x: int| self.value(y, x, c) * self.value(y, x, c)
    }

    /// Sum of channel `c` over rows `top..bottom` and columns `left..right`.
    pub open spec fn sum(self, top: int, left: int, bottom: int, right: int, c: int) -> int {
        grid_sum(self.channel(c), top, left, bottom, right)
    }

    /// Sum of the squares of channel `c` over rows `top..bottom` and columns
    /// `left..right`.
    pub open spec fn square_sum(self, top: int, left: int, bottom: int, right: int, c: int) -> int {
        grid_sum(self.channel_squared(c), top, left, bottom, right)
    }

    /// `self` has the shape of `other` and holds the square of each of its
    /// samples.
    pub open spec fn squares(self, other: Plane) -> bool {
        &&& self.width == other.width
        &&& self.height == other.height
        &&& forall|y: int, x: int, c: int|
            other.holds(y, x) && 0 <= c < 3 ==> #[trigger] self.value(y, x, c) == other.value(
                y,
                x,
                c,
            ) * other.value(y, x, c)
    }

    /// No sample of a pixel exceeds `limit`.
    pub open spec fn bounded_by(self, limit: int) -> bool {
        forall|y: int, x: int, c: int|
            self.holds(y, x) && 0 <= c < 3 ==> #[trigger] self.value(y, x, c) <= limit
    }
}

/// The raster that a buffer of samples describes.
pub open spec fn samples_plane(data: Seq<u64>, width: nat, height: nat) -> Plane {
    Plane { width, height, samples: Seq::new(data.len(), |i: int| data[i] as nat) }
}

/// Position of a sample in the buffer, and that it lies inside the part of
/// the buffer that the raster uses.
pub proof fn lemma_sample_index(width: int, height: int, y: int, x: int, c: int)
    requires
        0 <= y < height,
        0 <= x < width,
        0 <= c < 3,
    ensures
        0 <= y * width,
        y * width + x < width * height,
        0 <= (y * width + x) * 3 + c < width * height * 3,
{
    assert(0 <= y * width) by (nonlinear_arith)
        requires
            0 <= y,
            0 <= width,
    ;
    assert(y * width + width <= height * width) by (nonlinear_arith)
        requires
            y + 1 <= height,
            0 <= width,
    ;
}

/// Sums over a raster are never negative.
pub proof fn lemma_sum_nonnegative(p: Plane, top: int, left: int, bottom: int, right: int, c: int)
    ensures
        0 <= p.sum(top, left, bottom, right, c),
{
    assert forall|y: int, x: int| 0 <= #[trigger] (p.channel(c))(y, x) by {}
    lemma_grid_sum_lower(p.channel(c), top, left, bottom, right);
}

/// Inclusion and exclusion: the sum over a rectangle from the four sums that
/// start at the origin and end at its corners. The differences that a table
/// lookup forms on the way are not negative.
pub proof fn lemma_corner_sums(p: Plane, top: int, left: int, bottom: int, right: int, c: int)
    requires
        0 <= top <= bottom,
        0 <= left <= right,
    ensures
        p.sum(top, left, bottom, right, c) == p.sum(0, 0, bottom, right, c) - p.sum(
            0,
            0,
            bottom,
            left,
            c,
        ) - p.sum(0, 0, top, right, c) + p.sum(0, 0, top, left, c),
        p.sum(0, 0, bottom, left, c) <= p.sum(0, 0, bottom, right, c),
        p.sum(0, 0, top, left, c) <= p.sum(0, 0, top, right, c),
        0 <= p.sum(top, left, bottom, right, c),
{
    let f = p.channel(c);
    lemma_grid_sum_split_cols(f, 0, bottom, 0, left, right);
    lemma_grid_sum_split_cols(f, 0, top, 0, left, right);
    lemma_grid_sum_split_rows(f, 0, top, bottom, left, right);
    lemma_sum_nonnegative(p, 0, left, bottom, right, c);
    lemma_sum_nonnegative(p, 0, left, top, right, c);
    lemma_sum_nonnegative(p, top, left, bottom, right, c);
}

/// A sum that starts at the origin does not shrink when its rectangle grows.
pub proof fn lemma_origin_sum_monotone(p: Plane, y: int, x: int, bottom: int, right: int, c: int)
    requires
        0 <= y <= bottom,
        0 <= x <= right,
    ensures
        0 <= p.sum(0, 0, y, x, c) <= p.sum(0, 0, bottom, right, c),
{
    let f = p.channel(c);
    lemma_grid_sum_split_rows(f, 0, y, bottom, 0, right);
    lemma_grid_sum_split_cols(f, 0, y, 0, x, right);
    lemma_sum_nonnegative(p, y, 0, bottom, right, c);
    lemma_sum_nonnegative(p, 0, x, y, right, c);
    lemma_sum_nonnegative(p, 0, 0, y, x, c);
}

/// The recurrence by which a summed-area table is filled.
pub proof fn lemma_origin_sum_step(p: Plane, y: int, x: int, c: int)
    requires
        0 <= y,
        0 <= x,
    ensures
        p.sum(0, 0, y + 1, x + 1, c) == p.value(y, x, c) + p.sum(0, 0, y + 1, x, c) + (p.sum(
            0,
            0,
            y,
            x + 1,
            c,
        ) - p.sum(0, 0, y, x, c)),
        p.sum(0, 0, y, x, c) <= p.sum(0, 0, y, x + 1, c),
        p.sum(0, 0, 0, x, c) == 0,
        p.sum(0, 0, y, 0, c) == 0,
{
    let f = p.channel(c);
    lemma_grid_sum_split_cols(f, 0, y + 1, 0, x, x + 1);
    lemma_grid_sum_split_rows(f, 0, y, y + 1, x, x + 1);
    lemma_grid_sum_split_cols(f, 0, y, 0, x, x + 1);
    lemma_grid_sum_cell(f, y, x);
    lemma_sum_nonnegative(p, 0, x, y, x + 1, c);
    lemma_grid_sum_bounds(f, 0, 0, y, 0, 0, 0);
}

} // verus!
