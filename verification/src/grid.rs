//! The summed-area table: sums over any rectangle of an image in constant
//! time.

use crate::plane::{
    lemma_corner_sums, lemma_origin_sum_monotone, lemma_origin_sum_step, lemma_sample_index,
    samples_plane, Plane,
};
use vstd::prelude::*;

verus! {

/// Channel `c` of a table entry.
pub open spec fn channel_of(entry: (u64, u64, u64), c: int) -> int {
    if c == 0 {
        entry.0 as int
    } else if c == 1 {
        entry.1 as int
    } else {
        entry.2 as int
    }
}

/// A summed-area table over a three-channel raster.
///
/// The table has one row and one column more than the raster. The entry at
/// row `y`, column `x` holds, per channel, the sum of all samples above row
/// `y` and left of column `x`; row 0 and column 0 are therefore zero.
pub struct RGBGrid {
    table: Vec<Vec<(u64, u64, u64)>>,
    plane: Ghost<Plane>,
}

impl View for RGBGrid {
    type V = Plane;

    /// The raster that the table sums up.
    closed spec fn view(&self) -> Plane {
        self.plane@
    }
}

impl RGBGrid {
    /// Channel `c` of the table entry at row `y`, column `x`.
    pub closed spec fn entry(&self, y: int, x: int, c: int) -> int {
        channel_of(self.table@[y]@[x], c)
    }

    /// The table has the shape that its raster asks for, and every entry is
    /// the sum of the samples above and left of it.
    pub closed spec fn wf(&self) -> bool {
        &&& self.table@.len() == self@.height + 1
        &&& forall|y: int|
            0 <= y <= self@.height ==> (#[trigger] self.table@[y])@.len() == self@.width + 1
        &&& forall|y: int, x: int, c: int|
            0 <= y <= self@.height && 0 <= x <= self@.width && 0 <= c < 3 ==> #[trigger] self.entry(
                y,
                x,
                c,
            ) == self@.sum(0, 0, y, x, c)
    }

    /// Every entry of a well-formed table is the sum of the samples above
    /// and left of it.
    pub proof fn lemma_entry_is_origin_sum(&self, y: int, x: int, c: int)
        requires
            self.wf(),
            0 <= y <= self@.height,
            0 <= x <= self@.width,
            0 <= c < 3,
        ensures
            self.entry(y, x, c) == self@.sum(0, 0, y, x, c),
    {
    }

    /// Builds the table of a `width` by `height` raster from its samples,
    /// given row by row with three channels per pixel.
    ///
    /// The sum of each channel over the whole raster has to fit the 64 bits
    /// of an entry.
    pub fn new(width: usize, height: usize, rgb_data: &[u64]) -> (grid: Self)
        requires
            width < usize::MAX,
            height < usize::MAX,
            rgb_data@.len() >= width * height * 3,
            forall|c: int|
                0 <= c < 3 ==> #[trigger] samples_plane(rgb_data@, width as nat, height as nat).sum(
                    0,
                    0,
                    height as int,
                    width as int,
                    c,
                ) <= u64::MAX,
        ensures
            grid.wf(),
            grid@ == samples_plane(rgb_data@, width as nat, height as nat),
            forall|y: int, x: int, c: int|
                0 <= y <= height && 0 <= x <= width && 0 <= c < 3 ==> #[trigger] grid.entry(y, x, c)
                    == grid@.sum(0, 0, y, x, c),
    {
        let ghost p = samples_plane(rgb_data@, width as nat, height as nat);
        let len: usize = rgb_data.len();
        let mut table: Vec<Vec<(u64, u64, u64)>> = Vec::new();
        let mut first: Vec<(u64, u64, u64)> = Vec::new();
        let mut x: usize = 0;
        while x <= width
            invariant
                width < usize::MAX,
                x <= width + 1,
                first@.len() == x,
                forall|i: int| 0 <= i < x ==> #[trigger] first@[i] == (0u64, 0u64, 0u64),
            decreases width + 1 - x,
        {
            first.push((0, 0, 0));
            x = x + 1;
        }
        table.push(first);
        proof {
            assert forall|yy: int, xx: int, c: int|
                0 <= yy <= 0 && 0 <= xx <= width && 0 <= c < 3 implies #[trigger] channel_of(table@[yy]@[xx], c)
                    == p.sum(0, 0, yy, xx, c) by {
                lemma_origin_sum_step(p, 0, xx, c);
            }
        }
        let mut y: usize = 0;
        while y < height
            invariant
                width < usize::MAX,
                height < usize::MAX,
                y <= height,
                p == samples_plane(rgb_data@, width as nat, height as nat),
                rgb_data@.len() >= width * height * 3,
                rgb_data@.len() == len,
                forall|c: int|
                    0 <= c < 3 ==> #[trigger] p.sum(0, 0, height as int, width as int, c)
                        <= u64::MAX,
                table@.len() == y + 1,
                forall|yy: int| 0 <= yy <= y ==> (#[trigger] table@[yy])@.len() == width + 1,
                forall|yy: int, xx: int, c: int|
                    0 <= yy <= y && 0 <= xx <= width && 0 <= c < 3 ==> #[trigger] channel_of(table@[yy]@[xx], c)
                        == p.sum(0, 0, yy, xx, c),
            decreases height - y,
        {
            let mut row: Vec<(u64, u64, u64)> = Vec::new();
            row.push((0, 0, 0));
            proof {
                lemma_origin_sum_step(p, y as int + 1, 0, 0);
                lemma_origin_sum_step(p, y as int + 1, 0, 1);
                lemma_origin_sum_step(p, y as int + 1, 0, 2);
            }
            let mut x: usize = 0;
            while x < width
                invariant
                    width < usize::MAX,
                    height < usize::MAX,
                    y < height,
                    x <= width,
                    p == samples_plane(rgb_data@, width as nat, height as nat),
                    rgb_data@.len() >= width * height * 3,
                    rgb_data@.len() == len,
                    forall|c: int|
                        0 <= c < 3 ==> #[trigger] p.sum(0, 0, height as int, width as int, c)
                            <= u64::MAX,
                    table@.len() == y + 1,
                    (table@[y as int])@.len() == width + 1,
                    forall|xx: int, c: int|
                        0 <= xx <= width && 0 <= c < 3 ==> #[trigger] channel_of(table@[y as int]@[xx], c)
                            == p.sum(0, 0, y as int, xx, c),
                    row@.len() == x + 1,
                    forall|xx: int, c: int|
                        0 <= xx <= x && 0 <= c < 3 ==> #[trigger] channel_of(row@[xx], c) == p.sum(
                            0,
                            0,
                            y as int + 1,
                            xx,
                            c,
                        ),
                decreases width - x,
            {
                proof {
                    lemma_sample_index(width as int, height as int, y as int, x as int, 0);
                    lemma_sample_index(width as int, height as int, y as int, x as int, 2);
                }
                let at: usize = (y * width + x) * 3;
                let red: u64 = rgb_data[at];
                let green: u64 = rgb_data[at + 1];
                let blue: u64 = rgb_data[at + 2];
                let above: &Vec<(u64, u64, u64)> = &table[y];
                let up_left: (u64, u64, u64) = above[x];
                let up: (u64, u64, u64) = above[x + 1];
                let before: (u64, u64, u64) = row[x];
                proof {
                    assert(channel_of(table@[y as int]@[x as int], 0)
                        == p.sum(0, 0, y as int, x as int, 0));
                    assert(channel_of(table@[y as int]@[x as int + 1], 0)
                        == p.sum(0, 0, y as int, x as int + 1, 0));
                    assert(channel_of(table@[y as int]@[x as int], 1)
                        == p.sum(0, 0, y as int, x as int, 1));
                    assert(channel_of(table@[y as int]@[x as int + 1], 1)
                        == p.sum(0, 0, y as int, x as int + 1, 1));
                    assert(channel_of(table@[y as int]@[x as int], 2)
                        == p.sum(0, 0, y as int, x as int, 2));
                    assert(channel_of(table@[y as int]@[x as int + 1], 2)
                        == p.sum(0, 0, y as int, x as int + 1, 2));
                    assert(channel_of(row@[x as int], 0) == p.sum(0, 0, y as int + 1, x as int, 0));
                    assert(channel_of(row@[x as int], 1) == p.sum(0, 0, y as int + 1, x as int, 1));
                    assert(channel_of(row@[x as int], 2) == p.sum(0, 0, y as int + 1, x as int, 2));
                    lemma_origin_sum_step(p, y as int, x as int, 0);
                    lemma_origin_sum_step(p, y as int, x as int, 1);
                    lemma_origin_sum_step(p, y as int, x as int, 2);
                    lemma_origin_sum_monotone(
                        p,
                        y as int + 1,
                        x as int + 1,
                        height as int,
                        width as int,
                        0,
                    );
                    lemma_origin_sum_monotone(
                        p,
                        y as int + 1,
                        x as int + 1,
                        height as int,
                        width as int,
                        1,
                    );
                    lemma_origin_sum_monotone(
                        p,
                        y as int + 1,
                        x as int + 1,
                        height as int,
                        width as int,
                        2,
                    );
                }
                let entry: (u64, u64, u64) = (
                    red + before.0 + (up.0 - up_left.0),
                    green + before.1 + (up.1 - up_left.1),
                    blue + before.2 + (up.2 - up_left.2),
                );
                row.push(entry);
                x = x + 1;
            }
            table.push(row);
            y = y + 1;
        }
        RGBGrid { table, plane: Ghost(p) }
    }

    /// Sum of each channel over rows `top..bottom` and columns
    /// `left..right`, from the four table entries at the corners.
    pub fn get_sum(&self, top: usize, left: usize, bottom: usize, right: usize) -> (sums: (
        u64,
        u64,
        u64,
    ))
        requires
            self.wf(),
            top <= bottom <= self@.height,
            left <= right <= self@.width,
        ensures
            sums.0 == self@.sum(top as int, left as int, bottom as int, right as int, 0),
            sums.1 == self@.sum(top as int, left as int, bottom as int, right as int, 1),
            sums.2 == self@.sum(top as int, left as int, bottom as int, right as int, 2),
            sums.0 == self.entry(bottom as int, right as int, 0) - self.entry(
                bottom as int,
                left as int,
                0,
            ) - self.entry(top as int, right as int, 0) + self.entry(top as int, left as int, 0),
            sums.1 == self.entry(bottom as int, right as int, 1) - self.entry(
                bottom as int,
                left as int,
                1,
            ) - self.entry(top as int, right as int, 1) + self.entry(top as int, left as int, 1),
            sums.2 == self.entry(bottom as int, right as int, 2) - self.entry(
                bottom as int,
                left as int,
                2,
            ) - self.entry(top as int, right as int, 2) + self.entry(top as int, left as int, 2),
    {
        let low: &Vec<(u64, u64, u64)> = &self.table[bottom];
        let high: &Vec<(u64, u64, u64)> = &self.table[top];
        let a: (u64, u64, u64) = low[right];
        let b: (u64, u64, u64) = low[left];
        let c: (u64, u64, u64) = high[right];
        let d: (u64, u64, u64) = high[left];
        proof {
            let p = self@;
            lemma_corner_sums(p, top as int, left as int, bottom as int, right as int, 0);
            lemma_corner_sums(p, top as int, left as int, bottom as int, right as int, 1);
            lemma_corner_sums(p, top as int, left as int, bottom as int, right as int, 2);
            assert(self.entry(bottom as int, right as int, 0)
                == p.sum(0, 0, bottom as int, right as int, 0));
            assert(self.entry(bottom as int, left as int, 0)
                == p.sum(0, 0, bottom as int, left as int, 0));
            assert(self.entry(top as int, right as int, 0)
                == p.sum(0, 0, top as int, right as int, 0));
            assert(self.entry(top as int, left as int, 0)
                == p.sum(0, 0, top as int, left as int, 0));
            assert(self.entry(bottom as int, right as int, 1)
                == p.sum(0, 0, bottom as int, right as int, 1));
            assert(self.entry(bottom as int, left as int, 1)
                == p.sum(0, 0, bottom as int, left as int, 1));
            assert(self.entry(top as int, right as int, 1)
                == p.sum(0, 0, top as int, right as int, 1));
            assert(self.entry(top as int, left as int, 1)
                == p.sum(0, 0, top as int, left as int, 1));
            assert(self.entry(bottom as int, right as int, 2)
                == p.sum(0, 0, bottom as int, right as int, 2));
            assert(self.entry(bottom as int, left as int, 2)
                == p.sum(0, 0, bottom as int, left as int, 2));
            assert(self.entry(top as int, right as int, 2)
                == p.sum(0, 0, top as int, right as int, 2));
            assert(self.entry(top as int, left as int, 2)
                == p.sum(0, 0, top as int, left as int, 2));
        }
        ((a.0 - b.0) - (c.0 - d.0), (a.1 - b.1) - (c.1 - d.1), (a.2 - b.2) - (c.2 - d.2))
    }
}

} // verus!
