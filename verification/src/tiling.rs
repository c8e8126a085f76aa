//! What it means for rectangles to tile an image, and why cutting one of
//! them in two keeps the tiling.

use crate::rectangle::{lemma_halves_partition, Rectangle, SplitLine};
use vstd::prelude::*;

verus! {

/// Some rectangle of the sequence holds the pixel at row `y`, column `x`.
pub open spec fn covered(regions: Seq<Rectangle>, y: int, x: int) -> bool {
    exists|i: int| 0 <= i < regions.len() && (#[trigger] regions[i]).contains(y, x)
}

/// The rectangles lie inside the image, no two of them overlap, and every
/// pixel of the image belongs to one of them.
pub open spec fn tiles(regions: Seq<Rectangle>, width: int, height: int) -> bool {
    &&& forall|i: int|
        0 <= i < regions.len() ==> (#[trigger] regions[i]).wf() && regions[i].within(width, height)
    &&& forall|i: int, j: int|
        0 <= i < regions.len() && 0 <= j < regions.len() && i != j ==> !(#[trigger] regions[i]).overlaps(
            #[trigger] regions[j],
        )
    &&& forall|y: int, x: int|
        0 <= y < height && 0 <= x < width ==> #[trigger] covered(regions, y, x)
}

/// The sequence in which the rectangle at `k` has given way to its two
/// parts, which stand at the end.
pub open spec fn refined(regions: Seq<Rectangle>, k: int, line: SplitLine) -> Seq<Rectangle> {
    regions.remove(k).push(regions[k].halves(line).0).push(regions[k].halves(line).1)
}

/// The whole image is a tiling of itself.
pub proof fn lemma_whole_tiles(width: usize, height: usize)
    requires
        0 < width,
        0 < height,
    ensures
        tiles(
            seq![Rectangle { top: 0, left: 0, bottom: height, right: width }],
            width as int,
            height as int,
        ),
{
    let regions = seq![Rectangle { top: 0, left: 0, bottom: height, right: width }];
    assert forall|y: int, x: int| 0 <= y < height && 0 <= x < width implies #[trigger] covered(
        regions,
        y,
        x,
    ) by {
        assert(regions[0].contains(y, x));
    }
}

/// Cutting one rectangle of a tiling in two leaves a tiling.
pub proof fn lemma_refined_tiles(
    regions: Seq<Rectangle>,
    k: int,
    line: SplitLine,
    width: int,
    height: int,
)
    requires
        tiles(regions, width, height),
        0 <= k < regions.len(),
        regions[k].admits(line),
    ensures
        tiles(refined(regions, k, line), width, height),
        refined(regions, k, line).len() == regions.len() + 1,
{
    let parent = regions[k];
    let first = parent.halves(line).0;
    let second = parent.halves(line).1;
    let rest = regions.remove(k);
    let next = refined(regions, k, line);
    let n = regions.len() as int;
    lemma_halves_partition(parent, line);
    assert(next[n - 1] == first);
    assert(next[n] == second);
    assert forall|i: int| 0 <= i < n - 1 implies #[trigger] next[i] == regions[if i < k {
        i
    } else {
        i + 1
    }] by {}
    assert forall|i: int| 0 <= i < next.len() implies (#[trigger] next[i]).wf() && next[i].within(
        width,
        height,
    ) by {}
    assert forall|i: int, j: int|
        0 <= i < next.len() && 0 <= j < next.len() && i != j implies !(#[trigger] next[i]).overlaps(
        #[trigger] next[j],
    ) by {}
    assert forall|y: int, x: int| 0 <= y < height && 0 <= x < width implies #[trigger] covered(
        next,
        y,
        x,
    ) by {
        assert(covered(regions, y, x));
        let o = choose|o: int| 0 <= o < regions.len() && (#[trigger] regions[o]).contains(y, x);
        if o == k {
        } else {
            let i = if o < k { o } else { o - 1 };
            assert(next[i] == regions[o]);
        }
    }
}

} // verus!
