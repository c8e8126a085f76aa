//! Rectangles of an image, the cost of painting one in a single colour, and
//! the search for the cut that lowers that cost most.

use crate::grid::RGBGrid;
use crate::plane::Plane;
use crate::sums::{
    lemma_grid_square_bound, lemma_grid_sum_agree, lemma_grid_sum_split_cols,
    lemma_grid_sum_split_rows,
};
use vstd::prelude::*;

verus! {

/// A straight cut through a rectangle.
#[derive(Clone, Copy, Debug, PartialEq, Eq)]
pub enum SplitLine {
    /// A cut between row `y - 1` and row `y`.
    Horizontal(usize),
    /// A cut between column `x - 1` and column `x`.
    Vertical(usize),
}

/// Rows `top..bottom` and columns `left..right` of an image.
#[derive(Clone, Copy, Debug, PartialEq, Eq)]
pub struct Rectangle {
    pub top: usize,
    pub left: usize,
    pub bottom: usize,
    pub right: usize,
}

impl Rectangle {
    /// The rectangle holds at least one pixel.
    pub open spec fn wf(self) -> bool {
        self.top < self.bottom && self.left < self.right
    }

    /// The rectangle lies inside an image of the given size.
    pub open spec fn within(self, width: int, height: int) -> bool {
        self.bottom <= height && self.right <= width
    }

    /// Number of pixels.
    pub open spec fn area(self) -> int {
        (self.bottom - self.top) * (self.right - self.left)
    }

    /// The pixel at row `y`, column `x` belongs to the rectangle.
    pub open spec fn contains(self, y: int, x: int) -> bool {
        self.top <= y < self.bottom && self.left <= x < self.right
    }

    /// The two rectangles share a pixel.
    pub open spec fn overlaps(self, other: Rectangle) -> bool {
        &&& self.top < other.bottom
        &&& other.top < self.bottom
        &&& self.left < other.right
        &&& other.left < self.right
    }

    /// The cut runs strictly inside the rectangle.
    pub open spec fn admits(self, line: SplitLine) -> bool {
        match line {
            SplitLine::Horizontal(y) => self.top < y < self.bottom,
            SplitLine::Vertical(x) => self.left < x < self.right,
        }
    }

    /// The two parts that a cut leaves: upper then lower, or left then right.
    pub open spec fn halves(self, line: SplitLine) -> (Rectangle, Rectangle) {
        match line {
            SplitLine::Horizontal(y) => (
                Rectangle { top: self.top, left: self.left, bottom: y, right: self.right },
                Rectangle { top: y, left: self.left, bottom: self.bottom, right: self.right },
            ),
            SplitLine::Vertical(x) => (
                Rectangle { top: self.top, left: self.left, bottom: self.bottom, right: x },
                Rectangle { top: self.top, left: x, bottom: self.bottom, right: self.right },
            ),
        }
    }

    /// Sum of channel `c` of the image over the rectangle.
    pub open spec fn sum(self, p: Plane, c: int) -> int {
        p.sum(self.top as int, self.left as int, self.bottom as int, self.right as int, c)
    }

    /// Sum of the squares of channel `c` of the image over the rectangle.
    pub open spec fn square_sum(self, p: Plane, c: int) -> int {
        p.square_sum(self.top as int, self.left as int, self.bottom as int, self.right as int, c)
    }

    /// Squared error of channel `c` when the rectangle is painted in its mean:
    /// the sum of squares less the square of the sum over the area, the
    /// quotient rounded down.
    pub open spec fn channel_cost(self, p: Plane, c: int) -> int {
        self.square_sum(p, c) - (self.sum(p, c) * self.sum(p, c)) / self.area()
    }

    /// Squared error of the rectangle over the three channels.
    pub open spec fn cost(self, p: Plane) -> int {
        self.channel_cost(p, 0) + self.channel_cost(p, 1) + self.channel_cost(p, 2)
    }

    /// By how much a cut lowers the cost. Because each quotient is rounded
    /// down on its own, this can be negative by a few units.
    pub open spec fn gain(self, p: Plane, line: SplitLine) -> int {
        self.cost(p) - (self.halves(line).0.cost(p) + self.halves(line).1.cost(p))
    }

    /// Number of cuts that the rectangle admits.
    pub open spec fn candidate_count(self) -> int {
        (self.bottom - self.top - 1) + (self.right - self.left - 1)
    }

    /// The cuts in the order in which they are tried: the horizontal ones
    /// from the top down, then the vertical ones from left to right.
    pub open spec fn candidate(self, k: int) -> SplitLine {
        if k < self.bottom - self.top - 1 {
            SplitLine::Horizontal((self.top + 1 + k) as usize)
        } else {
            SplitLine::Vertical((self.left + 1 + (k - (self.bottom - self.top - 1))) as usize)
        }
    }

    /// The best of the first `k` cuts and its gain. A cut replaces the best
    /// so far only if its gain is strictly greater; before any cut has won,
    /// the gain is zero and the line is a placeholder at the upper edge.
    pub open spec fn best_among(self, p: Plane, k: int) -> (SplitLine, int)
        decreases k,
    {
        if k <= 0 {
            (SplitLine::Horizontal(self.top), 0)
        } else {
            let before = self.best_among(p, k - 1);
            let line = self.candidate(k - 1);
            if self.gain(p, line) > before.1 {
                (line, self.gain(p, line))
            } else {
                before
            }
        }
    }

    /// The best cut of the rectangle and the decrease in cost that it brings.
    pub open spec fn best_split(self, p: Plane) -> (SplitLine, int) {
        self.best_among(p, self.candidate_count())
    }

    /// The decrease in cost that the best cut brings; zero where no cut
    /// lowers the cost.
    pub open spec fn best_decrease(self, p: Plane) -> int {
        self.best_split(p).1
    }

    /// Cuts the rectangle in two along `split_line`.
    pub fn split(&self, split_line: SplitLine) -> (parts: (Rectangle, Rectangle))
        ensures
            parts == self.halves(split_line),
    {
        match split_line {
            SplitLine::Horizontal(y) => (
                Rectangle { top: self.top, left: self.left, bottom: y, right: self.right },
                Rectangle { top: y, left: self.left, bottom: self.bottom, right: self.right },
            ),
            SplitLine::Vertical(x) => (
                Rectangle { top: self.top, left: self.left, bottom: self.bottom, right: x },
                Rectangle { top: self.top, left: x, bottom: self.bottom, right: self.right },
            ),
        }
    }

    /// Squared error of the rectangle, from the table of the image and the
    /// table of its squares.
    pub fn evaluate_cost(&self, rgb_grid: &RGBGrid, rgb_squared_grid: &RGBGrid) -> (cost: u128)
        requires
            rgb_grid.wf(),
            rgb_squared_grid.wf(),
            rgb_squared_grid@.squares(rgb_grid@),
            self.wf(),
            self.within(rgb_grid@.width as int, rgb_grid@.height as int),
        ensures
            cost == self.cost(rgb_grid@),
            0 <= self.channel_cost(rgb_grid@, 0) <= u64::MAX,
            0 <= self.channel_cost(rgb_grid@, 1) <= u64::MAX,
            0 <= self.channel_cost(rgb_grid@, 2) <= u64::MAX,
    {
        let sums: (u64, u64, u64) = rgb_grid.get_sum(self.top, self.left, self.bottom, self.right);
        let squares: (u64, u64, u64) = rgb_squared_grid.get_sum(
            self.top,
            self.left,
            self.bottom,
            self.right,
        );
        let rows: u128 = (self.bottom - self.top) as u128;
        let columns: u128 = (self.right - self.left) as u128;
        proof {
            assert(rows * columns <= 0xFFFF_FFFF_FFFF_FFFF * 0xFFFF_FFFF_FFFF_FFFF)
                by (nonlinear_arith)
                requires
                    0 <= rows <= 0xFFFF_FFFF_FFFF_FFFF,
                    0 <= columns <= 0xFFFF_FFFF_FFFF_FFFF,
            ;
            assert(0 < rows * columns) by (nonlinear_arith)
                requires
                    0 < rows,
                    0 < columns,
            ;
        }
        let area: u128 = rows * columns;
        proof {
            lemma_square_table(rgb_grid@, rgb_squared_grid@, *self, 0);
            lemma_square_table(rgb_grid@, rgb_squared_grid@, *self, 1);
            lemma_square_table(rgb_grid@, rgb_squared_grid@, *self, 2);
            lemma_channel_cost_bounds(rgb_grid@, *self, 0);
            lemma_channel_cost_bounds(rgb_grid@, *self, 1);
            lemma_channel_cost_bounds(rgb_grid@, *self, 2);
        }
        let red: u128 = channel_error(sums.0, squares.0, area);
        let green: u128 = channel_error(sums.1, squares.1, area);
        let blue: u128 = channel_error(sums.2, squares.2, area);
        red + green + blue
    }
    /// Finds the cut that lowers the cost of the rectangle most, and by how
    /// much it does.
    ///
    /// All horizontal cuts are tried from the top down, then all vertical
    /// cuts from left to right; among cuts of equal gain the one tried first
    /// wins. Where no cut has a positive gain the decrease is zero and the
    /// line returned is a placeholder that must not be used to split.
    pub fn find_best_split(&self, rgb_grid: &RGBGrid, rgb_squared_grid: &RGBGrid) -> (best: (
        SplitLine,
        u64,
    ))
        requires
            rgb_grid.wf(),
            rgb_squared_grid.wf(),
            rgb_squared_grid@.squares(rgb_grid@),
            self.wf(),
            self.within(rgb_grid@.width as int, rgb_grid@.height as int),
            self.cost(rgb_grid@) <= u64::MAX,
        ensures
            best.0 == self.best_split(rgb_grid@).0,
            best.1 == self.best_split(rgb_grid@).1,
            best.1 == self.best_decrease(rgb_grid@),
    {
        let ghost p = rgb_grid@;
        let mut best_split_line = SplitLine::Horizontal(self.top);
        let mut best_cost: u64 = 0;
        let whole_cost: u128 = self.evaluate_cost(rgb_grid, rgb_squared_grid);
        let mut y: usize = self.top + 1;
        while y < self.bottom
            invariant
                rgb_grid.wf(),
                rgb_squared_grid.wf(),
                rgb_squared_grid@.squares(rgb_grid@),
                p == rgb_grid@,
                self.wf(),
                self.within(p.width as int, p.height as int),
                self.top < y <= self.bottom,
                whole_cost == self.cost(p),
                whole_cost <= u64::MAX,
                (best_split_line, best_cost as int) == self.best_among(p, y - self.top - 1),
            decreases self.bottom - y,
        {
            let line = SplitLine::Horizontal(y);
            let parts: (Rectangle, Rectangle) = self.split(line);
            let upper: u128 = parts.0.evaluate_cost(rgb_grid, rgb_squared_grid);
            let lower: u128 = parts.1.evaluate_cost(rgb_grid, rgb_squared_grid);
            let parts_cost: u128 = upper + lower;
            if whole_cost > parts_cost && whole_cost - parts_cost > best_cost as u128 {
                best_cost = (whole_cost - parts_cost) as u64;
                best_split_line = line;
            }
            y = y + 1;
        }
        let mut x: usize = self.left + 1;
        while x < self.right
            invariant
                rgb_grid.wf(),
                rgb_squared_grid.wf(),
                rgb_squared_grid@.squares(rgb_grid@),
                p == rgb_grid@,
                self.wf(),
                self.within(p.width as int, p.height as int),
                self.left < x <= self.right,
                whole_cost == self.cost(p),
                whole_cost <= u64::MAX,
                (best_split_line, best_cost as int) == self.best_among(
                    p,
                    (self.bottom - self.top - 1) + (x - self.left - 1),
                ),
            decreases self.right - x,
        {
            let line = SplitLine::Vertical(x);
            let parts: (Rectangle, Rectangle) = self.split(line);
            let near: u128 = parts.0.evaluate_cost(rgb_grid, rgb_squared_grid);
            let far: u128 = parts.1.evaluate_cost(rgb_grid, rgb_squared_grid);
            let parts_cost: u128 = near + far;
            if whole_cost > parts_cost && whole_cost - parts_cost > best_cost as u128 {
                best_cost = (whole_cost - parts_cost) as u64;
                best_split_line = line;
            }
            x = x + 1;
        }
        (best_split_line, best_cost)
    }
}

/// Squared error of one channel from its sum, the sum of its squares and
/// the number of pixels.
fn channel_error(sum: u64, square_sum: u64, area: u128) -> (error: u128)
    requires
        0 < area,
        sum * sum <= area * square_sum,
    ensures
        error == square_sum - (sum * sum) / (area as int),
        error <= square_sum,
{
    let wide: u128 = sum as u128;
    proof {
        assert(wide * wide <= 0xFFFF_FFFF_FFFF_FFFF * 0xFFFF_FFFF_FFFF_FFFF) by (nonlinear_arith)
            requires
                0 <= wide <= 0xFFFF_FFFF_FFFF_FFFF,
        ;
        assert((wide * wide) / (area as int) <= square_sum) by (nonlinear_arith)
            requires
                0 < area,
                0 <= wide * wide <= area * square_sum,
        ;
        assert(0 <= (wide * wide) / (area as int)) by (nonlinear_arith)
            requires
                0 < area,
                0 <= wide * wide,
        ;
    }
    let mean_part: u128 = (wide * wide) / area;
    square_sum as u128 - mean_part
}

/// What the table of the squares returns for a rectangle is the sum of the
/// squares of the image over it.
pub proof fn lemma_square_table(p: Plane, q: Plane, r: Rectangle, c: int)
    requires
        q.squares(p),
        r.within(p.width as int, p.height as int),
        0 <= c < 3,
    ensures
        r.sum(q, c) == r.square_sum(p, c),
{
    let (top, left, bottom, right) = (r.top as int, r.left as int, r.bottom as int, r.right as int);
    assert forall|y: int, x: int| top <= y < bottom && left <= x < right implies #[trigger] (
    q.channel(c))(y, x) == (p.channel_squared(c))(y, x) by {}
    lemma_grid_sum_agree(q.channel(c), p.channel_squared(c), top, left, bottom, right);
}

/// The square of the sum over a rectangle is at most its area times the
/// sum of the squares, so the cost of a channel lies between zero and the
/// sum of the squares.
pub proof fn lemma_channel_cost_bounds(p: Plane, r: Rectangle, c: int)
    requires
        r.wf(),
    ensures
        0 <= r.sum(p, c),
        0 <= r.square_sum(p, c),
        r.sum(p, c) * r.sum(p, c) <= r.area() * r.square_sum(p, c),
        0 <= r.channel_cost(p, c) <= r.square_sum(p, c),
{
    let (top, left, bottom, right) = (r.top as int, r.left as int, r.bottom as int, r.right as int);
    assert forall|y: int, x: int| top <= y < bottom && left <= x < right implies 0 <= #[trigger] (
    p.channel(c))(y, x) by {}
    assert forall|y: int, x: int| top <= y < bottom && left <= x < right implies #[trigger] (
    p.channel_squared(c))(y, x) == (p.channel(c))(y, x) * (p.channel(c))(y, x) by {}
    lemma_grid_square_bound(p.channel(c), p.channel_squared(c), top, left, bottom, right);
    let s = r.sum(p, c);
    let sq = r.square_sum(p, c);
    let a = r.area();
    assert(0 < a) by (nonlinear_arith)
        requires
            a == (bottom - top) * (right - left),
            top < bottom,
            left < right,
    ;
    assert(0 <= (s * s) / a <= sq) by (nonlinear_arith)
        requires
            0 < a,
            0 <= s,
            s * s <= a * sq,
    ;
}

/// The cost of a rectangle is never negative.
pub proof fn lemma_cost_nonnegative(p: Plane, r: Rectangle)
    requires
        r.wf(),
    ensures
        0 <= r.cost(p),
{
    lemma_channel_cost_bounds(p, r, 0);
    lemma_channel_cost_bounds(p, r, 1);
    lemma_channel_cost_bounds(p, r, 2);
}

/// Every one of the first `candidate_count` cuts runs inside the rectangle.
pub proof fn lemma_candidate_admitted(r: Rectangle, k: int)
    requires
        r.wf(),
        0 <= k < r.candidate_count(),
    ensures
        r.admits(r.candidate(k)),
{
}

/// Every cut that runs inside the rectangle is one of its candidates.
pub proof fn lemma_admitted_is_candidate(r: Rectangle, line: SplitLine) -> (k: int)
    requires
        r.wf(),
        r.admits(line),
    ensures
        0 <= k < r.candidate_count(),
        r.candidate(k) == line,
{
    match line {
        SplitLine::Horizontal(y) => y - r.top - 1,
        SplitLine::Vertical(x) => (r.bottom - r.top - 1) + (x - r.left - 1),
    }
}

/// The best of the first `k` cuts: its gain is not negative and not below
/// that of any of them; where it is positive it belongs to the first cut
/// that reaches it; where it is zero the line is the placeholder.
pub proof fn lemma_best_among(r: Rectangle, p: Plane, k: int)
    requires
        0 <= k,
    ensures
        0 <= r.best_among(p, k).1,
        forall|j: int| 0 <= j < k ==> #[trigger] r.gain(p, r.candidate(j)) <= r.best_among(p, k).1,
        r.best_among(p, k).1 == 0 ==> r.best_among(p, k).0 == SplitLine::Horizontal(r.top),
        r.best_among(p, k).1 > 0 ==> exists|j: int|
            {
                &&& 0 <= j < k
                &&& #[trigger] r.candidate(j) == r.best_among(p, k).0
                &&& r.gain(p, r.candidate(j)) == r.best_among(p, k).1
                &&& forall|i: int|
                    0 <= i < j ==> #[trigger] r.gain(p, r.candidate(i)) < r.best_among(p, k).1
            },
    decreases k,
{
    if k > 0 {
        lemma_best_among(r, p, k - 1);
        let before = r.best_among(p, k - 1);
        let line = r.candidate(k - 1);
        let now = r.best_among(p, k);
        if r.gain(p, line) > before.1 {
        } else {
            if now.1 > 0 {
                let j = choose|j: int|
                    {
                        &&& 0 <= j < k - 1
                        &&& #[trigger] r.candidate(j) == before.0
                        &&& r.gain(p, r.candidate(j)) == before.1
                        &&& forall|i: int|
                            0 <= i < j ==> #[trigger] r.gain(p, r.candidate(i)) < before.1
                    };
            }
        }
    }
}

/// The decrease that the best cut brings is never negative, and no cut of
/// the rectangle gains more.
pub proof fn lemma_best_decrease_is_maximum(r: Rectangle, p: Plane, line: SplitLine)
    requires
        r.wf(),
    ensures
        0 <= r.best_decrease(p),
        r.admits(line) ==> r.gain(p, line) <= r.best_decrease(p),
{
    lemma_best_among(r, p, r.candidate_count());
    if r.admits(line) {
        let k = lemma_admitted_is_candidate(r, line);
    }
}

/// Where the best decrease is positive, the best cut runs inside the
/// rectangle and gains exactly that much; where it is zero, the line is the
/// placeholder at the upper edge, which no rectangle admits.
pub proof fn lemma_best_split_line(r: Rectangle, p: Plane)
    requires
        r.wf(),
    ensures
        r.best_decrease(p) > 0 ==> r.admits(r.best_split(p).0) && r.gain(p, r.best_split(p).0)
            == r.best_decrease(p),
        r.best_decrease(p) == 0 ==> r.best_split(p).0 == SplitLine::Horizontal(r.top),
        r.best_decrease(p) > 0 ==> r.area() > 1,
{
    let n = r.candidate_count();
    lemma_best_among(r, p, n);
    if r.best_decrease(p) > 0 {
        let best = r.best_split(p);
        let j = choose|j: int|
            {
                &&& 0 <= j < n
                &&& #[trigger] r.candidate(j) == best.0
                &&& r.gain(p, r.candidate(j)) == best.1
                &&& forall|i: int| 0 <= i < j ==> #[trigger] r.gain(p, r.candidate(i)) < best.1
            };
        lemma_candidate_admitted(r, j);
        lemma_halves_partition(r, best.0);
    }
}

/// Among cuts of the same gain the best cut is the one tried first.
pub proof fn lemma_best_split_is_first(r: Rectangle, p: Plane, k: int) -> (j: int)
    requires
        r.wf(),
        r.best_decrease(p) > 0,
        0 <= k < r.candidate_count(),
        r.gain(p, r.candidate(k)) == r.best_decrease(p),
    ensures
        0 <= j <= k,
        r.candidate(j) == r.best_split(p).0,
{
    let n = r.candidate_count();
    lemma_best_among(r, p, n);
    let best = r.best_split(p);
    let j = choose|j: int|
        {
            &&& 0 <= j < n
            &&& #[trigger] r.candidate(j) == best.0
            &&& r.gain(p, r.candidate(j)) == best.1
            &&& forall|i: int| 0 <= i < j ==> #[trigger] r.gain(p, r.candidate(i)) < best.1
        };
    j
}

/// A cut inside a rectangle leaves two rectangles that hold at least one
/// pixel each, do not overlap, and together hold exactly its pixels.
pub proof fn lemma_halves_partition(r: Rectangle, line: SplitLine)
    requires
        r.wf(),
        r.admits(line),
    ensures
        r.halves(line).0.wf(),
        r.halves(line).1.wf(),
        !r.halves(line).0.overlaps(r.halves(line).1),
        forall|y: int, x: int|
            r.contains(y, x) <==> (#[trigger] r.halves(line).0.contains(y, x) || r.halves(
                line,
            ).1.contains(y, x)),
        r.halves(line).0.area() + r.halves(line).1.area() == r.area(),
        r.halves(line).0.area() >= 1,
        r.halves(line).1.area() >= 1,
        r.area() > 1,
        forall|width: int, height: int|
            r.within(width, height) ==> #[trigger] r.halves(line).0.within(width, height)
                && r.halves(line).1.within(width, height),
{
    let a = r.halves(line).0;
    let b = r.halves(line).1;
    assert(a.area() + b.area() == r.area()) by (nonlinear_arith)
        requires
            a.area() == (a.bottom - a.top) * (a.right - a.left),
            b.area() == (b.bottom - b.top) * (b.right - b.left),
            r.area() == (r.bottom - r.top) * (r.right - r.left),
            (a.top == r.top && a.bottom == b.top && b.bottom == r.bottom && a.left == r.left
                && b.left == r.left && a.right == r.right && b.right == r.right) || (a.left
                == r.left && a.right == b.left && b.right == r.right && a.top == r.top && b.top
                == r.top && a.bottom == r.bottom && b.bottom == r.bottom),
    ;
    assert(a.area() >= 1) by (nonlinear_arith)
        requires
            a.area() == (a.bottom - a.top) * (a.right - a.left),
            a.top < a.bottom,
            a.left < a.right,
    ;
    assert(b.area() >= 1) by (nonlinear_arith)
        requires
            b.area() == (b.bottom - b.top) * (b.right - b.left),
            b.top < b.bottom,
            b.left < b.right,
    ;
}

/// Over a rectangle, the sum of a channel and the sum of its squares equal
/// what the two parts of any cut add up to.
pub proof fn lemma_split_conserves_sums(p: Plane, r: Rectangle, line: SplitLine, c: int)
    requires
        r.admits(line),
    ensures
        r.sum(p, c) == r.halves(line).0.sum(p, c) + r.halves(line).1.sum(p, c),
        r.square_sum(p, c) == r.halves(line).0.square_sum(p, c) + r.halves(line).1.square_sum(
            p,
            c,
        ),
{
    let (top, left, bottom, right) = (r.top as int, r.left as int, r.bottom as int, r.right as int);
    match line {
        SplitLine::Horizontal(y) => {
            lemma_grid_sum_split_rows(p.channel(c), top, y as int, bottom, left, right);
            lemma_grid_sum_split_rows(p.channel_squared(c), top, y as int, bottom, left, right);
        },
        SplitLine::Vertical(x) => {
            lemma_grid_sum_split_cols(p.channel(c), top, bottom, left, x as int, right);
            lemma_grid_sum_split_cols(p.channel_squared(c), top, bottom, left, x as int, right);
        },
    }
}

} // verus!
