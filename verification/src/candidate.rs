//! Rectangles that wait to be cut, each with its best cut worked out.

use crate::plane::Plane;
use crate::rectangle::{Rectangle, SplitLine};
use vstd::prelude::*;

verus! {

/// A rectangle together with its best cut and the decrease in cost that
/// the cut brings.
#[derive(Clone, Copy, Debug, PartialEq, Eq)]
pub struct RectangleSplit {
    pub rectangle: Rectangle,
    pub split_line: SplitLine,
    pub cost_decrease: u64,
}

impl RectangleSplit {
    /// Line and decrease are those of the best cut of the rectangle.
    pub open spec fn evaluated(self, p: Plane) -> bool {
        &&& self.split_line == self.rectangle.best_split(p).0
        &&& self.cost_decrease == self.rectangle.best_split(p).1
    }

    /// A candidate from a rectangle, a cut and the decrease that the cut
    /// brings.
    pub fn new(rectangle: Rectangle, split_line: SplitLine, cost_decrease: u64) -> (candidate: Self)
        ensures
            candidate.rectangle == rectangle,
            candidate.split_line == split_line,
            candidate.cost_decrease == cost_decrease,
    {
        Self { rectangle, split_line, cost_decrease }
    }
}

/// The rectangles of the candidates, in order.
pub open spec fn queue_regions(queue: Seq<RectangleSplit>) -> Seq<Rectangle> {
    Seq::new(queue.len(), |i: int| queue[i].rectangle)
}

/// `k` is the place of the first candidate whose decrease no other exceeds.
pub open spec fn is_richest(queue: Seq<RectangleSplit>, k: int) -> bool {
    &&& 0 <= k < queue.len()
    &&& forall|j: int|
        0 <= j < queue.len() ==> (#[trigger] queue[j]).cost_decrease <= queue[k].cost_decrease
    &&& forall|j: int| 0 <= j < k ==> (#[trigger] queue[j]).cost_decrease < queue[k].cost_decrease
}

/// Finds the candidate with the largest decrease; among equals, the one
/// that has waited longest.
pub fn richest(queue: &Vec<RectangleSplit>) -> (k: usize)
    requires
        queue@.len() > 0,
    ensures
        is_richest(queue@, k as int),
{
    let mut best: usize = 0;
    let mut i: usize = 1;
    while i < queue.len()
        invariant
            0 <= best < i <= queue@.len(),
            forall|j: int| 0 <= j < i ==> (#[trigger] queue@[j]).cost_decrease <= queue@[best as int].cost_decrease,
            forall|j: int| 0 <= j < best ==> (#[trigger] queue@[j]).cost_decrease < queue@[best as int].cost_decrease,
        decreases queue@.len() - i,
    {
        if queue[i].cost_decrease > queue[best].cost_decrease {
            best = i;
        }
        i = i + 1;
    }
    best
}

} // verus!
