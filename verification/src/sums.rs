//! Sums of an integer function over the cells of a rectangle.
//!
//! Everything here is specification and proof: the definitions give meaning
//! to the sums that the summed-area table answers, and the lemmas are the
//! algebra of those sums.

use vstd::prelude::*;

verus! {

/// Sum of `f(y, x)` for `left <= x < right`.
pub open spec fn row_sum(f: spec_fn(int, int) -> int, y: int, left: int, right: int) -> int
    decreases right - left,
{
    if right <= left {
        0
    } else {
        row_sum(f, y, left, right - 1) + f(y, right - 1)
    }
}

/// Sum of `f(y, x)` for `top <= y < bottom` and `left <= x < right`.
pub open spec fn grid_sum(
    f: spec_fn(int, int) -> int,
    top: int,
    left: int,
    bottom: int,
    right: int,
) -> int
    decreases bottom - top,
{
    if bottom <= top {
        0
    } else {
        grid_sum(f, top, left, bottom - 1, right) + row_sum(f, bottom - 1, left, right)
    }
}

/// A row sum is the sum of its two parts at any cut.
pub proof fn lemma_row_sum_split(f: spec_fn(int, int) -> int, y: int, left: int, mid: int, right: int)
    requires
        left <= mid <= right,
    ensures
        row_sum(f, y, left, right) == row_sum(f, y, left, mid) + row_sum(f, y, mid, right),
    decreases right - mid,
{
    if mid < right {
        lemma_row_sum_split(f, y, left, mid, right - 1);
    }
}

/// A rectangle sum is the sum over the rows above a cut plus the rows below it.
pub proof fn lemma_grid_sum_split_rows(
    f: spec_fn(int, int) -> int,
    top: int,
    mid: int,
    bottom: int,
    left: int,
    right: int,
)
    requires
        top <= mid <= bottom,
    ensures
        grid_sum(f, top, left, bottom, right) == grid_sum(f, top, left, mid, right) + grid_sum(
            f,
            mid,
            left,
            bottom,
            right,
        ),
    decreases bottom - mid,
{
    if mid < bottom {
        lemma_grid_sum_split_rows(f, top, mid, bottom - 1, left, right);
    }
}

/// A rectangle sum is the sum over the columns left of a cut plus those right of it.
pub proof fn lemma_grid_sum_split_cols(
    f: spec_fn(int, int) -> int,
    top: int,
    bottom: int,
    left: int,
    mid: int,
    right: int,
)
    requires
        left <= mid <= right,
    ensures
        grid_sum(f, top, left, bottom, right) == grid_sum(f, top, left, bottom, mid) + grid_sum(
            f,
            top,
            mid,
            bottom,
            right,
        ),
    decreases bottom - top,
{
    if top < bottom {
        lemma_grid_sum_split_cols(f, top, bottom - 1, left, mid, right);
        lemma_row_sum_split(f, bottom - 1, left, mid, right);
    }
}

/// The sum over a single cell is the value at that cell.
pub proof fn lemma_grid_sum_cell(f: spec_fn(int, int) -> int, y: int, x: int)
    ensures
        grid_sum(f, y, x, y + 1, x + 1) == f(y, x),
{
    assert(grid_sum(f, y, x, y, x + 1) == 0);
    assert(row_sum(f, y, x, x) == 0);
}

/// Where every value of a row lies between `lo` and `hi`, the sum lies
/// between `lo` and `hi` times the length of the row.
pub proof fn lemma_row_sum_bounds(
    f: spec_fn(int, int) -> int,
    y: int,
    left: int,
    right: int,
    lo: int,
    hi: int,
)
    requires
        left <= right,
        forall|x: int| left <= x < right ==> lo <= #[trigger] f(y, x) <= hi,
    ensures
        lo * (right - left) <= row_sum(f, y, left, right) <= hi * (right - left),
    decreases right - left,
{
    if left < right {
        lemma_row_sum_bounds(f, y, left, right - 1, lo, hi);
        assert(lo * (right - left) == lo * (right - 1 - left) + lo) by (nonlinear_arith);
        assert(hi * (right - left) == hi * (right - 1 - left) + hi) by (nonlinear_arith);
    } else {
        assert(lo * (right - left) == 0) by (nonlinear_arith)
            requires
                right - left == 0,
        ;
        assert(hi * (right - left) == 0) by (nonlinear_arith)
            requires
                right - left == 0,
        ;
    }
}

/// Where every value in a rectangle lies between `lo` and `hi`, the sum lies
/// between `lo` and `hi` times the number of cells.
pub proof fn lemma_grid_sum_bounds(
    f: spec_fn(int, int) -> int,
    top: int,
    left: int,
    bottom: int,
    right: int,
    lo: int,
    hi: int,
)
    requires
        top <= bottom,
        left <= right,
        forall|y: int, x: int|
            top <= y < bottom && left <= x < right ==> lo <= #[trigger] f(y, x) <= hi,
    ensures
        lo * ((bottom - top) * (right - left)) <= grid_sum(f, top, left, bottom, right) <= hi * ((
        bottom - top) * (right - left)),
    decreases bottom - top,
{
    let w = right - left;
    if top < bottom {
        lemma_grid_sum_bounds(f, top, left, bottom - 1, right, lo, hi);
        lemma_row_sum_bounds(f, bottom - 1, left, right, lo, hi);
        let h = bottom - 1 - top;
        assert(lo * ((h + 1) * w) == lo * (h * w) + lo * w) by (nonlinear_arith);
        assert(hi * ((h + 1) * w) == hi * (h * w) + hi * w) by (nonlinear_arith);
    } else {
        assert(lo * ((bottom - top) * w) == 0) by (nonlinear_arith)
            requires
                bottom - top == 0,
        ;
        assert(hi * ((bottom - top) * w) == 0) by (nonlinear_arith)
            requires
                bottom - top == 0,
        ;
    }
}

/// Two functions that agree on a row have the same row sum.
pub proof fn lemma_row_sum_agree(
    f: spec_fn(int, int) -> int,
    g: spec_fn(int, int) -> int,
    y: int,
    left: int,
    right: int,
)
    requires
        forall|x: int| left <= x < right ==> #[trigger] f(y, x) == g(y, x),
    ensures
        row_sum(f, y, left, right) == row_sum(g, y, left, right),
    decreases right - left,
{
    if left < right {
        lemma_row_sum_agree(f, g, y, left, right - 1);
    }
}

/// Two functions that agree on a rectangle have the same sum over it.
pub proof fn lemma_grid_sum_agree(
    f: spec_fn(int, int) -> int,
    g: spec_fn(int, int) -> int,
    top: int,
    left: int,
    bottom: int,
    right: int,
)
    requires
        forall|y: int, x: int|
            top <= y < bottom && left <= x < right ==> #[trigger] f(y, x) == g(y, x),
    ensures
        grid_sum(f, top, left, bottom, right) == grid_sum(g, top, left, bottom, right),
    decreases bottom - top,
{
    if top < bottom {
        lemma_grid_sum_agree(f, g, top, left, bottom - 1, right);
        lemma_row_sum_agree(f, g, bottom - 1, left, right);
    }
}

/// Two collections that each satisfy `sum * sum <= count * sum_of_squares`
/// satisfy it together.
pub proof fn lemma_square_bound_merge(s1: int, q1: int, n1: int, s2: int, q2: int, n2: int)
    requires
        0 <= s1,
        0 <= s2,
        0 <= n1,
        0 <= n2,
        0 <= q1,
        0 <= q2,
        s1 * s1 <= n1 * q1,
        s2 * s2 <= n2 * q2,
    ensures
        (s1 + s2) * (s1 + s2) <= (n1 + n2) * (q1 + q2),
{
    let a = n1 * q2;
    let b = n2 * q1;
    let p = s1 * s2;
    assert(0 <= a && 0 <= b && 0 <= p) by (nonlinear_arith)
        requires
            a == n1 * q2,
            b == n2 * q1,
            p == s1 * s2,
            0 <= s1,
            0 <= s2,
            0 <= n1,
            0 <= n2,
            0 <= q1,
            0 <= q2,
    ;
    assert(a * b == (n1 * q1) * (n2 * q2)) by (nonlinear_arith)
        requires
            a == n1 * q2,
            b == n2 * q1,
    ;
    assert((n1 * q1) * (n2 * q2) >= (s1 * s1) * (s2 * s2)) by (nonlinear_arith)
        requires
            0 <= s1 * s1 <= n1 * q1,
            0 <= s2 * s2 <= n2 * q2,
    ;
    assert((s1 * s1) * (s2 * s2) == p * p) by (nonlinear_arith)
        requires
            p == s1 * s2,
    ;
    assert((a + b) * (a + b) >= 4 * (a * b)) by (nonlinear_arith);
    if 2 * p > a + b {
        assert((2 * p) * (2 * p) > (a + b) * (a + b)) by (nonlinear_arith)
            requires
                2 * p > a + b,
                a + b >= 0,
        ;
        assert((2 * p) * (2 * p) == 4 * (p * p)) by (nonlinear_arith);
    }
    assert((s1 + s2) * (s1 + s2) == s1 * s1 + 2 * p + s2 * s2) by (nonlinear_arith)
        requires
            p == s1 * s2,
    ;
    assert((n1 + n2) * (q1 + q2) == n1 * q1 + a + b + n2 * q2) by (nonlinear_arith)
        requires
            a == n1 * q2,
            b == n2 * q1,
    ;
}

/// Cauchy-Schwarz along a row: the square of the sum is at most the number
/// of cells times the sum of the squares.
pub proof fn lemma_row_square_bound(
    f: spec_fn(int, int) -> int,
    g: spec_fn(int, int) -> int,
    y: int,
    left: int,
    right: int,
)
    requires
        left <= right,
        forall|x: int| left <= x < right ==> 0 <= #[trigger] f(y, x),
        forall|x: int| left <= x < right ==> #[trigger] g(y, x) == f(y, x) * f(y, x),
    ensures
        0 <= row_sum(f, y, left, right),
        0 <= row_sum(g, y, left, right),
        row_sum(f, y, left, right) * row_sum(f, y, left, right) <= (right - left) * row_sum(
            g,
            y,
            left,
            right,
        ),
    decreases right - left,
{
    if left < right {
        lemma_row_square_bound(f, g, y, left, right - 1);
        let v = f(y, right - 1);
        lemma_square_bound_merge(
            row_sum(f, y, left, right - 1),
            row_sum(g, y, left, right - 1),
            right - 1 - left,
            v,
            v * v,
            1,
        );
    } else {
        assert(row_sum(f, y, left, right) * row_sum(f, y, left, right) == 0) by (nonlinear_arith)
            requires
                row_sum(f, y, left, right) == 0,
        ;
        assert((right - left) * row_sum(g, y, left, right) == 0) by (nonlinear_arith)
            requires
                row_sum(g, y, left, right) == 0,
        ;
    }
}

/// Cauchy-Schwarz over a rectangle: for non-negative values, the square of
/// their sum is at most the number of cells times the sum of their squares.
pub proof fn lemma_grid_square_bound(
    f: spec_fn(int, int) -> int,
    g: spec_fn(int, int) -> int,
    top: int,
    left: int,
    bottom: int,
    right: int,
)
    requires
        top <= bottom,
        left <= right,
        forall|y: int, x: int| top <= y < bottom && left <= x < right ==> 0 <= #[trigger] f(y, x),
        forall|y: int, x: int|
            top <= y < bottom && left <= x < right ==> #[trigger] g(y, x) == f(y, x) * f(y, x),
    ensures
        0 <= grid_sum(f, top, left, bottom, right),
        0 <= grid_sum(g, top, left, bottom, right),
        grid_sum(f, top, left, bottom, right) * grid_sum(f, top, left, bottom, right) <= ((bottom
            - top) * (right - left)) * grid_sum(g, top, left, bottom, right),
    decreases bottom - top,
{
    let w = right - left;
    if top < bottom {
        lemma_grid_square_bound(f, g, top, left, bottom - 1, right);
        lemma_row_square_bound(f, g, bottom - 1, left, right);
        let h = bottom - 1 - top;
        assert(0 <= h * w) by (nonlinear_arith)
            requires
                0 <= h,
                0 <= w,
        ;
        lemma_square_bound_merge(
            grid_sum(f, top, left, bottom - 1, right),
            grid_sum(g, top, left, bottom - 1, right),
            h * w,
            row_sum(f, bottom - 1, left, right),
            row_sum(g, bottom - 1, left, right),
            w,
        );
        assert(h * w + w == (bottom - top) * w) by (nonlinear_arith)
            requires
                h == bottom - 1 - top,
        ;
    } else {
        let s = grid_sum(f, top, left, bottom, right);
        let q = grid_sum(g, top, left, bottom, right);
        assert(s * s == 0) by (nonlinear_arith)
            requires
                s == 0,
        ;
        assert(((bottom - top) * w) * q == 0) by (nonlinear_arith)
            requires
                q == 0,
        ;
    }
}

/// A row of non-negative values has a non-negative sum.
pub proof fn lemma_row_sum_lower(f: spec_fn(int, int) -> int, y: int, left: int, right: int)
    requires
        forall|x: int| left <= x < right ==> 0 <= #[trigger] f(y, x),
    ensures
        0 <= row_sum(f, y, left, right),
    decreases right - left,
{
    if left < right {
        lemma_row_sum_lower(f, y, left, right - 1);
    }
}

/// A rectangle of non-negative values has a non-negative sum.
pub proof fn lemma_grid_sum_lower(
    f: spec_fn(int, int) -> int,
    top: int,
    left: int,
    bottom: int,
    right: int,
)
    requires
        forall|y: int, x: int| top <= y < bottom && left <= x < right ==> 0 <= #[trigger] f(y, x),
    ensures
        0 <= grid_sum(f, top, left, bottom, right),
    decreases bottom - top,
{
    if top < bottom {
        lemma_grid_sum_lower(f, top, left, bottom - 1, right);
        lemma_row_sum_lower(f, bottom - 1, left, right);
    }
}

} // verus!
