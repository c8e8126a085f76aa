//! The greedy partitioner: from one rectangle to many, one cut at a time.

use crate::candidate::{queue_regions, richest, RectangleSplit};
use crate::color::{lemma_mean_is_byte, mean, mean_color, pack_rgb, painted, MAX_SIDE};
use crate::grid::RGBGrid;
use crate::plane::{lemma_sample_index, samples_plane, Plane};
use crate::rectangle::{
    lemma_best_split_line, lemma_candidate_admitted, lemma_channel_cost_bounds,
    lemma_halves_partition, Rectangle, SplitLine,
};
use crate::sums::lemma_grid_sum_bounds;
use crate::tiling::{lemma_refined_tiles, lemma_whole_tiles, refined, tiles};
use crate::{frame_regions, Rect};
use vstd::prelude::*;

verus! {

/// Why an image cannot be partitioned.
#[derive(Clone, Copy, Debug, PartialEq, Eq)]
pub enum PartitionError {
    /// No rectangle was asked for.
    NoRectangles,
    /// The image has no pixels.
    EmptyImage,
    /// A side of the image is longer than a frame can record.
    ImageTooLarge,
    /// The buffer does not hold three bytes for every pixel, or holds more.
    BufferMismatch,
}

/// What is wrong with a request, if anything; the first fault found counts.
pub open spec fn input_error(num_rectangles: int, width: int, height: int, len: int) -> Option<
    PartitionError,
> {
    if num_rectangles == 0 {
        Some(PartitionError::NoRectangles)
    } else if width == 0 || height == 0 {
        Some(PartitionError::EmptyImage)
    } else if width > MAX_SIDE || height > MAX_SIDE {
        Some(PartitionError::ImageTooLarge)
    } else if len != width * height * 3 {
        Some(PartitionError::BufferMismatch)
    } else {
        None
    }
}

/// The image that a buffer of bytes describes.
pub open spec fn image(rgb: Seq<u8>, width: nat, height: nat) -> Plane {
    Plane { width, height, samples: Seq::new(rgb.len(), |i: int| rgb[i] as nat) }
}

/// The rectangle that covers the whole image.
pub open spec fn whole(p: Plane) -> Rectangle {
    Rectangle { top: 0, left: 0, bottom: p.height as usize, right: p.width as usize }
}

/// A list of frames as a sequence of sequences.
pub open spec fn frames_view(steps: Seq<Vec<Rect>>) -> Seq<Seq<Rect>> {
    Seq::new(steps.len(), |i: int| steps[i]@)
}

/// The frame that records the given rectangles, in order.
pub open spec fn frame_of(p: Plane, regions: Seq<Rectangle>) -> Seq<Rect> {
    Seq::new(regions.len(), |i: int| painted(p, regions[i]))
}

/// Every rectangle of the frame has the mean colour of the image over it.
pub open spec fn is_painted(p: Plane, frame: Seq<Rect>) -> bool {
    forall|j: int| 0 <= j < frame.len() ==> #[trigger] frame[j] == painted(p, frame[j].region())
}

/// The rectangle at `k` is the one to cut next: its best cut lowers the cost,
/// no rectangle of the frame offers more, and none before it offers as much.
pub open spec fn is_greedy_choice(p: Plane, frame: Seq<Rect>, k: int) -> bool {
    &&& 0 <= k < frame.len()
    &&& frame[k].region().best_decrease(p) > 0
    &&& forall|j: int|
        0 <= j < frame.len() ==> (#[trigger] frame[j]).region().best_decrease(p) <= frame[k].region().best_decrease(
            p,
        )
    &&& forall|j: int|
        0 <= j < k ==> (#[trigger] frame[j]).region().best_decrease(p) < frame[k].region().best_decrease(
            p,
        )
}

/// The frame that follows when the rectangle at `k` is cut along its best
/// line: it leaves its place, and its two parts join at the end.
pub open spec fn step_of(p: Plane, frame: Seq<Rect>, k: int) -> Seq<Rect> {
    let r = frame[k].region();
    let line = r.best_split(p).0;
    frame.remove(k).push(painted(p, r.halves(line).0)).push(painted(p, r.halves(line).1))
}

/// `next` is the greedy refinement of `prev`.
pub open spec fn refines(p: Plane, prev: Seq<Rect>, next: Seq<Rect>) -> bool {
    exists|k: int| #[trigger] is_greedy_choice(p, prev, k) && next == step_of(p, prev, k)
}

/// Frame `i + 1` is the greedy refinement of frame `i`.
pub open spec fn step_holds(p: Plane, frames: Seq<Seq<Rect>>, i: int) -> bool {
    refines(p, frames[i], frames[i + 1])
}

/// No cut of any rectangle of the frame lowers the cost.
pub open spec fn exhausted(p: Plane, frame: Seq<Rect>) -> bool {
    forall|j: int| 0 <= j < frame.len() ==> (#[trigger] frame[j]).region().best_decrease(p) == 0
}

/// The frames start with the whole image in one rectangle; each one after
/// the first is the greedy refinement of the one before; frame `i` has
/// `i + 1` rectangles, which tile the image and carry its mean colours.
pub open spec fn is_refinement_chain(p: Plane, frames: Seq<Seq<Rect>>) -> bool {
    &&& frames.len() >= 1
    &&& frames[0] == seq![painted(p, whole(p))]
    &&& forall|i: int| 0 <= i < frames.len() - 1 ==> #[trigger] step_holds(p, frames, i)
    &&& forall|i: int| 0 <= i < frames.len() ==> (#[trigger] frames[i]).len() == i + 1
    &&& forall|i: int|
        0 <= i < frames.len() ==> tiles(
            frame_regions(#[trigger] frames[i]),
            p.width as int,
            p.height as int,
        )
    &&& forall|i: int| 0 <= i < frames.len() ==> is_painted(p, #[trigger] frames[i])
}

/// The frames are what the greedy partitioner returns when asked for
/// `target` rectangles: a chain of refinements that ends at `target`
/// rectangles, or earlier where no cut lowers the cost any more.
pub open spec fn is_greedy_run(p: Plane, frames: Seq<Seq<Rect>>, target: int) -> bool {
    &&& is_refinement_chain(p, frames)
    &&& frames.len() <= target
    &&& frames.len() < target ==> exhausted(p, frames.last())
}

/// A rectangle that a frame can record is the region of its record.
pub proof fn lemma_painted_region(p: Plane, r: Rectangle)
    requires
        r.bottom <= MAX_SIDE,
        r.right <= MAX_SIDE,
        r.top <= r.bottom,
        r.left <= r.right,
    ensures
        painted(p, r).region() == r,
{
}

/// One step of refinement replaces exactly one rectangle of the frame by
/// the two parts that its best cut leaves; the rectangles of the new frame
/// tile the image again and carry its mean colours.
pub proof fn lemma_step_replaces_one(p: Plane, prev: Seq<Rect>, k: int)
    requires
        p.width <= MAX_SIDE,
        p.height <= MAX_SIDE,
        tiles(frame_regions(prev), p.width as int, p.height as int),
        is_painted(p, prev),
        is_greedy_choice(p, prev, k),
    ensures
        prev[k].region().admits(prev[k].region().best_split(p).0),
        frame_regions(step_of(p, prev, k)) == refined(
            frame_regions(prev),
            k,
            prev[k].region().best_split(p).0,
        ),
        step_of(p, prev, k).len() == prev.len() + 1,
        tiles(frame_regions(step_of(p, prev, k)), p.width as int, p.height as int),
        is_painted(p, step_of(p, prev, k)),
{
    let regions = frame_regions(prev);
    let r = prev[k].region();
    let line = r.best_split(p).0;
    let next = step_of(p, prev, k);
    let n = prev.len() as int;
    assert(regions[k] == r);
    lemma_best_split_line(r, p);
    lemma_halves_partition(r, line);
    lemma_refined_tiles(regions, k, line, p.width as int, p.height as int);
    let first = r.halves(line).0;
    let second = r.halves(line).1;
    lemma_painted_region(p, first);
    lemma_painted_region(p, second);
    assert(next.len() == n + 1);
    assert forall|i: int| 0 <= i < n - 1 implies #[trigger] next[i] == prev[if i < k {
        i
    } else {
        i + 1
    }] by {}
    let target = refined(regions, k, line);
    assert forall|i: int| 0 <= i < n + 1 implies #[trigger] frame_regions(next)[i] == target[i] by {}
    assert forall|j: int| 0 <= j < next.len() implies #[trigger] next[j] == painted(
        p,
        next[j].region(),
    ) by {}
}

/// A chain of refinements stays one when the greedy refinement of its last
/// frame is added.
pub proof fn lemma_chain_extends(p: Plane, frames: Seq<Seq<Rect>>, k: int)
    requires
        p.width <= MAX_SIDE,
        p.height <= MAX_SIDE,
        is_refinement_chain(p, frames),
        is_greedy_choice(p, frames.last(), k),
    ensures
        is_refinement_chain(p, frames.push(step_of(p, frames.last(), k))),
{
    let n = frames.len() as int;
    let prev = frames.last();
    let next = step_of(p, prev, k);
    let grown = frames.push(next);
    lemma_step_replaces_one(p, prev, k);
    assert forall|i: int| 0 <= i < grown.len() - 1 implies #[trigger] step_holds(p, grown, i) by {
        if i < n - 1 {
            assert(step_holds(p, frames, i));
        }
    }
    assert forall|i: int| 0 <= i < grown.len() implies (#[trigger] grown[i]).len() == i + 1 by {}
    assert forall|i: int| 0 <= i < grown.len() implies tiles(
        frame_regions(#[trigger] grown[i]),
        p.width as int,
        p.height as int,
    ) by {}
    assert forall|i: int| 0 <= i < grown.len() implies is_painted(p, #[trigger] grown[i]) by {}
}

/// In an image of 8-bit samples whose sides a frame can record, the cost of
/// every rectangle fits 64 bits.
pub proof fn lemma_cost_fits(p: Plane, r: Rectangle)
    requires
        p.bounded_by(255),
        p.width <= MAX_SIDE,
        p.height <= MAX_SIDE,
        r.wf(),
        r.within(p.width as int, p.height as int),
    ensures
        0 <= r.cost(p) <= u64::MAX,
{
    let (top, left, bottom, right) = (r.top as int, r.left as int, r.bottom as int, r.right as int);
    let area = (bottom - top) * (right - left);
    assert(0 <= area <= 0xFFFF * 0xFFFF) by (nonlinear_arith)
        requires
            area == (bottom - top) * (right - left),
            0 < bottom - top <= 0xFFFF,
            0 < right - left <= 0xFFFF,
    ;
    assert forall|c: int| 0 <= c < 3 implies 0 <= #[trigger] r.channel_cost(p, c) <= 65025 * area by {
        lemma_channel_cost_bounds(p, r, c);
        assert forall|y: int, x: int|
            top <= y < bottom && left <= x < right implies 0 <= #[trigger] (p.channel_squared(c))(
            y,
            x,
        ) <= 65025 by {
            let v = p.value(y, x, c);
            assert(0 <= v * v <= 65025) by (nonlinear_arith)
                requires
                    0 <= v <= 255,
            ;
        }
        lemma_grid_sum_bounds(p.channel_squared(c), top, left, bottom, right, 0, 65025);
    }
}

/// The image of the widened bytes is the image of the bytes; its sums and
/// the sums of its squares fit the entries of a table.
pub proof fn lemma_image_tables(
    rgb: Seq<u8>,
    linear: Seq<u64>,
    squared: Seq<u64>,
    width: nat,
    height: nat,
)
    requires
        0 < width <= MAX_SIDE,
        0 < height <= MAX_SIDE,
        rgb.len() == width * height * 3,
        linear.len() == rgb.len(),
        squared.len() == rgb.len(),
        forall|i: int| 0 <= i < rgb.len() ==> #[trigger] linear[i] == rgb[i],
        forall|i: int| 0 <= i < rgb.len() ==> #[trigger] squared[i] == rgb[i] * rgb[i],
    ensures
        samples_plane(linear, width, height) == image(rgb, width, height),
        image(rgb, width, height).bounded_by(255),
        samples_plane(squared, width, height).squares(image(rgb, width, height)),
        forall|c: int|
            0 <= c < 3 ==> #[trigger] samples_plane(linear, width, height).sum(
                0,
                0,
                height as int,
                width as int,
                c,
            ) <= u64::MAX,
        forall|c: int|
            0 <= c < 3 ==> #[trigger] samples_plane(squared, width, height).sum(
                0,
                0,
                height as int,
                width as int,
                c,
            ) <= u64::MAX,
{
    let p = image(rgb, width, height);
    let l = samples_plane(linear, width, height);
    let q = samples_plane(squared, width, height);
    assert(l.samples =~= p.samples);
    let w = width as int;
    let h = height as int;
    assert(0 <= h * w <= 0xFFFF * 0xFFFF) by (nonlinear_arith)
        requires
            0 < w <= 0xFFFF,
            0 < h <= 0xFFFF,
    ;
    assert forall|y: int, x: int, c: int| p.holds(y, x) && 0 <= c < 3 implies 0 <= #[trigger] p.value(
        y,
        x,
        c,
    ) <= 255 by {
        lemma_sample_index(w, h, y, x, c);
    }
    assert forall|y: int, x: int, c: int| p.holds(y, x) && 0 <= c < 3 implies #[trigger] q.value(
        y,
        x,
        c,
    ) == p.value(y, x, c) * p.value(y, x, c) && q.value(y, x, c) <= 65025 by {
        lemma_sample_index(w, h, y, x, c);
        let at = (y * w + x) * 3 + c;
        let v = rgb[at] as int;
        assert(0 <= v * v <= 65025) by (nonlinear_arith)
            requires
                0 <= v <= 255,
        ;
    }
    assert forall|c: int| 0 <= c < 3 implies #[trigger] l.sum(0, 0, h, w, c) <= u64::MAX by {
        assert forall|y: int, x: int| 0 <= y < h && 0 <= x < w implies 0 <= #[trigger] (l.channel(
            c,
        ))(y, x) <= 255 by {}
        lemma_grid_sum_bounds(l.channel(c), 0, 0, h, w, 0, 255);
    }
    assert forall|c: int| 0 <= c < 3 implies #[trigger] q.sum(0, 0, h, w, c) <= u64::MAX by {
        assert forall|y: int, x: int| 0 <= y < h && 0 <= x < w implies 0 <= #[trigger] (q.channel(
            c,
        ))(y, x) <= 65025 by {}
        lemma_grid_sum_bounds(q.channel(c), 0, 0, h, w, 0, 65025);
    }
}

/// The bytes as 64-bit samples.
fn widen(rgb_data: &[u8]) -> (samples: Vec<u64>)
    ensures
        samples@.len() == rgb_data@.len(),
        forall|i: int| 0 <= i < rgb_data@.len() ==> #[trigger] samples@[i] == rgb_data@[i],
{
    let mut samples: Vec<u64> = Vec::new();
    let mut i: usize = 0;
    while i < rgb_data.len()
        invariant
            i <= rgb_data@.len(),
            samples@.len() == i,
            forall|j: int| 0 <= j < i ==> #[trigger] samples@[j] == rgb_data@[j],
        decreases rgb_data@.len() - i,
    {
        samples.push(rgb_data[i] as u64);
        i = i + 1;
    }
    samples
}

/// The square of every byte.
fn square_all(rgb_data: &[u8]) -> (squares: Vec<u64>)
    ensures
        squares@.len() == rgb_data@.len(),
        forall|i: int|
            0 <= i < rgb_data@.len() ==> #[trigger] squares@[i] == rgb_data@[i] * rgb_data@[i],
{
    let mut squares: Vec<u64> = Vec::new();
    let mut i: usize = 0;
    while i < rgb_data.len()
        invariant
            i <= rgb_data@.len(),
            squares@.len() == i,
            forall|j: int| 0 <= j < i ==> #[trigger] squares@[j] == rgb_data@[j] * rgb_data@[j],
        decreases rgb_data@.len() - i,
    {
        let v: u64 = rgb_data[i] as u64;
        assert(v * v <= 65025) by (nonlinear_arith)
            requires
                0 <= v <= 255,
        ;
        squares.push(v * v);
        i = i + 1;
    }
    squares
}

/// Records the rectangles that wait in the queue as a frame: each with its
/// bounds and the mean colour of the image over it, in the order of the
/// queue.
pub fn record_frame(queue: &Vec<RectangleSplit>, rgb_grid: &RGBGrid) -> (frame: Vec<Rect>)
    requires
        rgb_grid.wf(),
        rgb_grid@.bounded_by(255),
        rgb_grid@.width <= MAX_SIDE,
        rgb_grid@.height <= MAX_SIDE,
        forall|i: int|
            0 <= i < queue@.len() ==> (#[trigger] queue@[i]).rectangle.wf()
                && queue@[i].rectangle.within(rgb_grid@.width as int, rgb_grid@.height as int),
    ensures
        frame@ == frame_of(rgb_grid@, queue_regions(queue@)),
        frame_regions(frame@) == queue_regions(queue@),
        is_painted(rgb_grid@, frame@),
{
    let ghost p = rgb_grid@;
    let mut frame: Vec<Rect> = Vec::new();
    let mut i: usize = 0;
    while i < queue.len()
        invariant
            rgb_grid.wf(),
            p == rgb_grid@,
            p.bounded_by(255),
            p.width <= MAX_SIDE,
            p.height <= MAX_SIDE,
            forall|j: int|
                0 <= j < queue@.len() ==> (#[trigger] queue@[j]).rectangle.wf()
                    && queue@[j].rectangle.within(p.width as int, p.height as int),
            i <= queue@.len(),
            frame@.len() == i,
            forall|j: int| 0 <= j < i ==> #[trigger] frame@[j] == painted(p, queue@[j].rectangle),
        decreases queue@.len() - i,
    {
        let rectangle: Rectangle = queue[i].rectangle;
        proof {
            lemma_mean_is_byte(p, rectangle, 0);
            lemma_mean_is_byte(p, rectangle, 1);
            lemma_mean_is_byte(p, rectangle, 2);
        }
        frame.push(rectangle.paint(rgb_grid));
        i = i + 1;
    }
    proof {
        assert forall|j: int| 0 <= j < frame@.len() implies #[trigger] frame_regions(frame@)[j]
            == queue_regions(queue@)[j] by {
            lemma_painted_region(p, queue@[j].rectangle);
        }
        assert forall|j: int| 0 <= j < frame@.len() implies #[trigger] frame@[j] == painted(
            p,
            frame@[j].region(),
        ) by {}
    }
    frame
}

/// Partitions an image into at most `num_rectangles` rectangles, and
/// returns every partition on the way as a frame.
///
/// `rgb_data` holds the pixels row by row, three bytes each: red, green,
/// blue. The first frame is the whole image in one rectangle. Each further
/// frame comes from the one before by cutting the rectangle whose best cut
/// lowers the squared error most; of several such, the one that stands
/// first in the frame. The rectangle leaves its place and its two parts go
/// to the end of the frame. The run stops early, with fewer frames, as soon
/// as no cut lowers the error.
pub fn run_greedy(num_rectangles: usize, width: usize, height: usize, rgb_data: &[u8]) -> (result:
    Result<Vec<Vec<Rect>>, PartitionError>)
    ensures
        match result {
            Ok(steps) => {
                &&& input_error(
                    num_rectangles as int,
                    width as int,
                    height as int,
                    rgb_data@.len() as int,
                ) is None
                &&& is_greedy_run(
                    image(rgb_data@, width as nat, height as nat),
                    frames_view(steps@),
                    num_rectangles as int,
                )
            },
            Err(error) => input_error(
                num_rectangles as int,
                width as int,
                height as int,
                rgb_data@.len() as int,
            ) == Some(error),
        },
{
    if num_rectangles == 0 {
        return Err(PartitionError::NoRectangles);
    }
    if width == 0 || height == 0 {
        return Err(PartitionError::EmptyImage);
    }
    if width > MAX_SIDE || height > MAX_SIDE {
        return Err(PartitionError::ImageTooLarge);
    }
    assert(width * height * 3 <= 0xFFFF * 0xFFFF * 3) by (nonlinear_arith)
        requires
            0 < width <= 0xFFFF,
            0 < height <= 0xFFFF,
    ;
    assert(0 <= width * height <= 0xFFFF * 0xFFFF) by (nonlinear_arith)
        requires
            0 < width <= 0xFFFF,
            0 < height <= 0xFFFF,
    ;
    let expected: u64 = (width as u64) * (height as u64) * 3;
    if rgb_data.len() as u64 != expected {
        return Err(PartitionError::BufferMismatch);
    }
    let ghost p = image(rgb_data@, width as nat, height as nat);
    let linear: Vec<u64> = widen(rgb_data);
    let squared: Vec<u64> = square_all(rgb_data);
    proof {
        lemma_image_tables(rgb_data@, linear@, squared@, width as nat, height as nat);
    }
    let rgb_grid = RGBGrid::new(width, height, linear.as_slice());
    let rgb_grid_squared = RGBGrid::new(width, height, squared.as_slice());

    let initial_rectangle = Rectangle { top: 0, left: 0, bottom: height, right: width };
    proof {
        lemma_cost_fits(p, initial_rectangle);
        lemma_whole_tiles(width, height);
    }
    let initial: (SplitLine, u64) = initial_rectangle.find_best_split(&rgb_grid, &rgb_grid_squared);
    let mut queue: Vec<RectangleSplit> = Vec::new();
    queue.push(RectangleSplit::new(initial_rectangle, initial.0, initial.1));
    let mut steps: Vec<Vec<Rect>> = Vec::new();
    proof {
        assert(queue_regions(queue@) =~= seq![initial_rectangle]);
    }
    let first: Vec<Rect> = record_frame(&queue, &rgb_grid);
    steps.push(first);
    proof {
        let frames = frames_view(steps@);
        assert(frames[0] =~= seq![painted(p, whole(p))]);
    }
    let mut done: bool = false;
    while !done && queue.len() < num_rectangles
        invariant
            rgb_grid.wf(),
            rgb_grid_squared.wf(),
            rgb_grid@ == p,
            rgb_grid_squared@.squares(p),
            p.bounded_by(255),
            p.width == width,
            p.height == height,
            0 < width <= MAX_SIDE,
            0 < height <= MAX_SIDE,
            1 <= queue@.len() <= num_rectangles,
            steps@.len() == queue@.len(),
            forall|i: int| 0 <= i < queue@.len() ==> (#[trigger] queue@[i]).evaluated(p),
            tiles(queue_regions(queue@), width as int, height as int),
            frames_view(steps@).last() == frame_of(p, queue_regions(queue@)),
            is_refinement_chain(p, frames_view(steps@)),
            done ==> exhausted(p, frames_view(steps@).last()),
        decreases (if done { 0int } else { 1int }), num_rectangles - queue@.len(),
    {
        let ghost frames = frames_view(steps@);
        let ghost prev = frames.last();
        let ghost old_queue = queue@;
        let ghost regions = queue_regions(old_queue);
        let k: usize = richest(&queue);
        proof {
            assert forall|j: int| 0 <= j < prev.len() implies #[trigger] prev[j] == painted(
                p,
                old_queue[j].rectangle,
            ) && prev[j].region() == old_queue[j].rectangle && prev[j].region().best_decrease(p)
                == old_queue[j].cost_decrease by {
                assert(regions[j] == old_queue[j].rectangle);
                lemma_painted_region(p, old_queue[j].rectangle);
            }
        }
        if queue[k].cost_decrease == 0 {
            done = true;
            proof {
                assert forall|j: int| 0 <= j < prev.len() implies (#[trigger] prev[j]).region().best_decrease(
                    p,
                ) == 0 by {}
            }
        } else {
            let chosen: RectangleSplit = queue.remove(k);
            let parts: (Rectangle, Rectangle) = chosen.rectangle.split(chosen.split_line);
            proof {
                assert(regions[k as int] == chosen.rectangle);
                lemma_best_split_line(chosen.rectangle, p);
                lemma_halves_partition(chosen.rectangle, chosen.split_line);
                lemma_cost_fits(p, parts.0);
                lemma_cost_fits(p, parts.1);
                lemma_refined_tiles(
                    regions,
                    k as int,
                    chosen.split_line,
                    width as int,
                    height as int,
                );
            }
            let upper: (SplitLine, u64) = parts.0.find_best_split(&rgb_grid, &rgb_grid_squared);
            let lower: (SplitLine, u64) = parts.1.find_best_split(&rgb_grid, &rgb_grid_squared);
            queue.push(RectangleSplit::new(parts.0, upper.0, upper.1));
            queue.push(RectangleSplit::new(parts.1, lower.0, lower.1));
            proof {
                let n = old_queue.len() as int;
                assert forall|i: int| 0 <= i < n - 1 implies #[trigger] queue@[i] == old_queue[if i
                    < k {
                    i
                } else {
                    i + 1
                }] by {}
                assert forall|i: int| 0 <= i < queue@.len() implies (#[trigger] queue@[i]).evaluated(
                    p,
                ) by {}
                let target = refined(regions, k as int, chosen.split_line);
                assert forall|i: int| 0 <= i < n + 1 implies #[trigger] queue_regions(queue@)[i]
                    == target[i] by {}
                assert(queue_regions(queue@) =~= target);
                assert forall|i: int| 0 <= i < queue@.len() implies (#[trigger] queue@[i]).rectangle.wf()
                    && queue@[i].rectangle.within(width as int, height as int) by {
                    assert(queue_regions(queue@)[i] == queue@[i].rectangle);
                }
            }
            let frame: Vec<Rect> = record_frame(&queue, &rgb_grid);
            proof {
                let n = old_queue.len() as int;
                assert(is_greedy_choice(p, prev, k as int)) by {
                    assert forall|j: int| 0 <= j < prev.len() implies (#[trigger] prev[j]).region().best_decrease(
                        p,
                    ) <= prev[k as int].region().best_decrease(p) by {}
                    assert forall|j: int| 0 <= j < k implies (#[trigger] prev[j]).region().best_decrease(
                        p,
                    ) < prev[k as int].region().best_decrease(p) by {}
                }
                let next = step_of(p, prev, k as int);
                assert forall|i: int| 0 <= i < n + 1 implies #[trigger] frame@[i] == next[i] by {}
                assert(frame@ =~= next);
                lemma_chain_extends(p, frames, k as int);
            }
            steps.push(frame);
            proof {
                assert(frames_view(steps@) =~= frames.push(frame@));
            }
        }
    }
    Ok(steps)
}

/// Channel `c` of a colour given by its three intensities.
pub open spec fn intensity(color: (int, int, int), c: int) -> int {
    if c == 0 {
        color.0
    } else if c == 1 {
        color.1
    } else {
        color.2
    }
}

/// Every pixel of the image has the given colour.
pub open spec fn is_uniform(p: Plane, color: (int, int, int)) -> bool {
    forall|y: int, x: int, c: int|
        p.holds(y, x) && 0 <= c < 3 ==> #[trigger] p.value(y, x, c) == intensity(color, c)
}

/// Where no cut among the first `k` gains anything, the best of them is the
/// placeholder with a decrease of zero.
pub proof fn lemma_no_gain_no_decrease(r: Rectangle, p: Plane, k: int)
    requires
        forall|j: int| 0 <= j < k ==> #[trigger] r.gain(p, r.candidate(j)) <= 0,
    ensures
        r.best_among(p, k) == (SplitLine::Horizontal(r.top), 0int),
    decreases k,
{
    if k > 0 {
        lemma_no_gain_no_decrease(r, p, k - 1);
    }
}

/// A rectangle of one pixel has no cut, and its decrease is zero.
pub proof fn lemma_single_pixel_has_no_cut(r: Rectangle, p: Plane)
    requires
        r.bottom == r.top + 1,
        r.right == r.left + 1,
    ensures
        r.best_split(p) == (SplitLine::Horizontal(r.top), 0int),
{
    lemma_no_gain_no_decrease(r, p, 0);
}

/// Over an image of one colour, a rectangle costs nothing and has that
/// colour as its mean.
pub proof fn lemma_uniform_rectangle(p: Plane, r: Rectangle, color: (int, int, int))
    requires
        is_uniform(p, color),
        r.wf(),
        r.within(p.width as int, p.height as int),
    ensures
        r.cost(p) == 0,
        mean_color(p, r) == pack_rgb(color.0, color.1, color.2),
{
    let (top, left, bottom, right) = (r.top as int, r.left as int, r.bottom as int, r.right as int);
    let a = r.area();
    assert(0 < a) by (nonlinear_arith)
        requires
            a == (bottom - top) * (right - left),
            top < bottom,
            left < right,
    ;
    assert forall|c: int| 0 <= c < 3 implies #[trigger] r.channel_cost(p, c) == 0 && mean(p, r, c)
        == intensity(color, c) by {
        let v = intensity(color, c);
        assert forall|y: int, x: int| top <= y < bottom && left <= x < right implies v
            <= #[trigger] (p.channel(c))(y, x) <= v by {}
        lemma_grid_sum_bounds(p.channel(c), top, left, bottom, right, v, v);
        assert forall|y: int, x: int| top <= y < bottom && left <= x < right implies v * v
            <= #[trigger] (p.channel_squared(c))(y, x) <= v * v by {}
        lemma_grid_sum_bounds(p.channel_squared(c), top, left, bottom, right, v * v, v * v);
        let s = r.sum(p, c);
        let q = r.square_sum(p, c);
        assert((s * s) / a == q && s / a == v) by (nonlinear_arith)
            requires
                0 < a,
                s == v * a,
                q == (v * v) * a,
        ;
    }
}

/// Over an image of one colour no cut of any rectangle lowers the cost.
pub proof fn lemma_uniform_has_no_gain(p: Plane, r: Rectangle, color: (int, int, int))
    requires
        is_uniform(p, color),
        r.wf(),
        r.within(p.width as int, p.height as int),
    ensures
        r.best_split(p) == (SplitLine::Horizontal(r.top), 0int),
        r.best_decrease(p) == 0,
{
    let n = r.candidate_count();
    lemma_uniform_rectangle(p, r, color);
    assert forall|j: int| 0 <= j < n implies #[trigger] r.gain(p, r.candidate(j)) <= 0 by {
        let line = r.candidate(j);
        lemma_candidate_admitted(r, j);
        lemma_halves_partition(r, line);
        lemma_uniform_rectangle(p, r.halves(line).0, color);
        lemma_uniform_rectangle(p, r.halves(line).1, color);
    }
    lemma_no_gain_no_decrease(r, p, n);
}

/// The greedy run over an image of one colour has exactly one frame: the
/// whole image in that colour.
pub proof fn lemma_uniform_run_is_one_frame(
    p: Plane,
    frames: Seq<Seq<Rect>>,
    target: int,
    color: (int, int, int),
)
    requires
        0 < p.width <= MAX_SIDE,
        0 < p.height <= MAX_SIDE,
        is_uniform(p, color),
        is_greedy_run(p, frames, target),
    ensures
        frames.len() == 1,
        frames[0] == seq![painted(p, whole(p))],
        frames[0][0].color == pack_rgb(color.0, color.1, color.2) as u32,
{
    lemma_uniform_rectangle(p, whole(p), color);
    if frames.len() > 1 {
        assert(step_holds(p, frames, 0));
        let k = choose|k: int| #[trigger]
            is_greedy_choice(p, frames[0], k) && frames[1] == step_of(p, frames[0], k);
        lemma_painted_region(p, whole(p));
        lemma_uniform_has_no_gain(p, whole(p), color);
    }
}

} // verus!
