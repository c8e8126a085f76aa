//! The colour in which a rectangle is painted: the mean of the image over
//! it, channel by channel, packed into 24 bits.

use crate::grid::RGBGrid;
use crate::plane::Plane;
use crate::rectangle::Rectangle;
use crate::sums::lemma_grid_sum_bounds;
use crate::Rect;
use vstd::prelude::*;

verus! {

/// Largest coordinate that a frame can record.
pub const MAX_SIDE: usize = 0xFFFF;

/// Three 8-bit intensities as one number: red, green and blue from the
/// highest byte down.
pub open spec fn pack_rgb(red: int, green: int, blue: int) -> int {
    red * 0x1_0000 + green * 0x100 + blue
}

/// Mean of channel `c` of the image over the rectangle, rounded down.
pub open spec fn mean(p: Plane, r: Rectangle, c: int) -> int {
    r.sum(p, c) / r.area()
}

/// The packed mean colour of the image over the rectangle.
pub open spec fn mean_color(p: Plane, r: Rectangle) -> int {
    pack_rgb(mean(p, r, 0), mean(p, r, 1), mean(p, r, 2))
}

/// The rectangle as a frame records it: its bounds and its mean colour.
pub open spec fn painted(p: Plane, r: Rectangle) -> Rect {
    Rect {
        x1: r.left as u16,
        y1: r.top as u16,
        x2: r.right as u16,
        y2: r.bottom as u16,
        color: mean_color(p, r) as u32,
    }
}

/// Over an image of 8-bit samples every channel mean is an 8-bit value, so
/// the packed colour has 24 bits.
pub proof fn lemma_mean_is_byte(p: Plane, r: Rectangle, c: int)
    requires
        p.bounded_by(255),
        r.wf(),
        r.within(p.width as int, p.height as int),
        0 <= c < 3,
    ensures
        0 <= mean(p, r, c) <= 255,
        0 <= r.sum(p, c) <= 255 * r.area(),
{
    let (top, left, bottom, right) = (r.top as int, r.left as int, r.bottom as int, r.right as int);
    assert forall|y: int, x: int| top <= y < bottom && left <= x < right implies 0 <= #[trigger] (
    p.channel(c))(y, x) <= 255 by {}
    lemma_grid_sum_bounds(p.channel(c), top, left, bottom, right, 0, 255);
    let s = r.sum(p, c);
    let a = r.area();
    assert(0 < a) by (nonlinear_arith)
        requires
            a == (bottom - top) * (right - left),
            top < bottom,
            left < right,
    ;
    assert(0 <= s / a <= 255) by (nonlinear_arith)
        requires
            0 < a,
            0 <= s <= 255 * a,
    ;
}

/// The same bounds give the same colour: the colour of a rectangle depends
/// on the image and on the four bounds alone.
pub proof fn lemma_color_depends_on_bounds(p: Plane, first: Rectangle, second: Rectangle)
    requires
        first.top == second.top,
        first.left == second.left,
        first.bottom == second.bottom,
        first.right == second.right,
    ensures
        mean_color(p, first) == mean_color(p, second),
        painted(p, first) == painted(p, second),
{
}

/// Packs three 8-bit intensities into one 24-bit colour.
pub fn pack(red: u32, green: u32, blue: u32) -> (color: u32)
    requires
        red <= 255,
        green <= 255,
        blue <= 255,
    ensures
        color == pack_rgb(red as int, green as int, blue as int),
        color <= 0xFF_FFFF,
{
    assert((red << 16 | green << 8 | blue) == red * 0x1_0000 + green * 0x100 + blue && (red << 16
        | green << 8 | blue) <= 0xFF_FFFF) by (bit_vector)
        requires
            red <= 255,
            green <= 255,
            blue <= 255,
    ;
    red << 16 | green << 8 | blue
}

impl Rectangle {
    /// The mean colour of the image over the rectangle, from the table of
    /// the image.
    pub fn mean_color(&self, rgb_grid: &RGBGrid) -> (color: u32)
        requires
            rgb_grid.wf(),
            self.wf(),
            self.within(rgb_grid@.width as int, rgb_grid@.height as int),
            mean(rgb_grid@, *self, 0) <= 255,
            mean(rgb_grid@, *self, 1) <= 255,
            mean(rgb_grid@, *self, 2) <= 255,
        ensures
            color == mean_color(rgb_grid@, *self),
            color <= 0xFF_FFFF,
    {
        let sums: (u64, u64, u64) = rgb_grid.get_sum(self.top, self.left, self.bottom, self.right);
        let rows: u128 = (self.bottom - self.top) as u128;
        let columns: u128 = (self.right - self.left) as u128;
        proof {
            assert(rows * columns <= 0xFFFF_FFFF_FFFF_FFFF * 0xFFFF_FFFF_FFFF_FFFF)
                by (nonlinear_arith)
                requires
                    0 <= rows <= 0xFFFF_FFFF_FFFF_FFFF,
                    0 <= columns <= 0xFFFF_FFFF_FFFF_FFFF,
            ;
            assert(0 < rows * columns) by (nonlinear_arith)
                requires
                    0 < rows,
                    0 < columns,
            ;
        }
        let area: u128 = rows * columns;
        let red: u32 = (sums.0 as u128 / area) as u32;
        let green: u32 = (sums.1 as u128 / area) as u32;
        let blue: u32 = (sums.2 as u128 / area) as u32;
        pack(red, green, blue)
    }

    /// The rectangle as a frame records it.
    pub fn paint(&self, rgb_grid: &RGBGrid) -> (rect: Rect)
        requires
            rgb_grid.wf(),
            self.wf(),
            self.within(rgb_grid@.width as int, rgb_grid@.height as int),
            self.bottom <= MAX_SIDE,
            self.right <= MAX_SIDE,
            mean(rgb_grid@, *self, 0) <= 255,
            mean(rgb_grid@, *self, 1) <= 255,
            mean(rgb_grid@, *self, 2) <= 255,
        ensures
            rect == painted(rgb_grid@, *self),
            rect.region() == *self,
            rect.color <= 0xFF_FFFF,
    {
        let color: u32 = self.mean_color(rgb_grid);
        Rect {
            x1: self.left as u16,
            y1: self.top as u16,
            x2: self.right as u16,
            y2: self.bottom as u16,
            color,
        }
    }
}

} // verus!
