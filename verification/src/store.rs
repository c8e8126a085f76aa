//! A store that keeps the frames of one image and renders them on demand.

use crate::greedy::{frames_view, image, input_error, is_greedy_run, run_greedy, PartitionError};
use crate::render::{
    blank_document, document_markup, empty_group, fill, fill_text, framed_document,
    group_shapes, group_with_rect, Shape,
};
use crate::Rect;
use vstd::prelude::*;

verus! {

/// Why a run was refused.
#[derive(Clone, Copy, Debug, PartialEq, Eq)]
pub enum StoreError {
    /// The number does not name an algorithm.
    InvalidAlgorithm,
    /// The image cannot be partitioned.
    Partition(PartitionError),
}

impl StoreError {
    /// The error in words.
    pub fn message(&self) -> (text: &'static str)
        ensures
            text@ == match *self {
                StoreError::InvalidAlgorithm => "Invalid algorithm_id"@,
                StoreError::Partition(PartitionError::NoRectangles) => "No rectangles requested"@,
                StoreError::Partition(PartitionError::EmptyImage) => "Image has no pixels"@,
                StoreError::Partition(PartitionError::ImageTooLarge) => "Image is too large"@,
                StoreError::Partition(PartitionError::BufferMismatch) => "Pixel buffer does not match the image size"@,
            },
    {
        match self {
            StoreError::InvalidAlgorithm => "Invalid algorithm_id",
            StoreError::Partition(PartitionError::NoRectangles) => "No rectangles requested",
            StoreError::Partition(PartitionError::EmptyImage) => "Image has no pixels",
            StoreError::Partition(PartitionError::ImageTooLarge) => "Image is too large",
            StoreError::Partition(PartitionError::BufferMismatch) => "Pixel buffer does not match the image size",
        }
    }
}

/// The number of the greedy partitioner.
pub const GREEDY: usize = 1;

/// Number of colour bytes that a buffer of `len` bytes with four bytes per
/// pixel holds. A last pixel that is cut short counts with what is there of
/// its first three bytes.
pub open spec fn rgb_len(len: int) -> int {
    (len / 4) * 3 + if len % 4 < 3 {
        len % 4
    } else {
        3
    }
}

/// The buffer without every fourth byte.
pub open spec fn without_alpha(rgba: Seq<u8>) -> Seq<u8> {
    Seq::new(rgb_len(rgba.len() as int) as nat, |j: int| rgba[(j / 3) * 4 + j % 3])
}

/// Drops the fourth byte of every pixel.
pub fn drop_alpha(rgba: &[u8]) -> (rgb: Vec<u8>)
    ensures
        rgb@ == without_alpha(rgba@),
{
    let len: usize = rgba.len();
    let full: usize = len / 4;
    let rest: usize = len % 4;
    let mut rgb: Vec<u8> = Vec::new();
    let mut k: usize = 0;
    while k < full
        invariant
            len == rgba@.len(),
            full == len / 4,
            k <= full,
            rgb@.len() == 3 * k,
            forall|j: int| 0 <= j < 3 * k ==> #[trigger] rgb@[j] == rgba@[(j / 3) * 4 + j % 3],
        decreases full - k,
    {
        let at: usize = 4 * k;
        rgb.push(rgba[at]);
        rgb.push(rgba[at + 1]);
        rgb.push(rgba[at + 2]);
        k = k + 1;
    }
    let extra: usize = if rest < 3 {
        rest
    } else {
        3
    };
    let mut c: usize = 0;
    while c < extra
        invariant
            len == rgba@.len(),
            full == len / 4,
            rest == len % 4,
            extra <= 3,
            extra <= rest,
            c <= extra,
            rgb@.len() == 3 * full + c,
            forall|j: int| 0 <= j < 3 * full + c ==> #[trigger] rgb@[j]
                == rgba@[(j / 3) * 4 + j % 3],
        decreases extra - c,
    {
        rgb.push(rgba[4 * full + c]);
        c = c + 1;
    }
    rgb
}

/// The shape that stands for a rectangle of a frame.
pub open spec fn shape_of(rect: Rect) -> Shape {
    (
        rect.x1 as int,
        rect.y1 as int,
        rect.x2 - rect.x1,
        rect.y2 - rect.y1,
        fill_text(rect.color),
    )
}

/// The shapes of a frame, in order.
pub open spec fn frame_shapes(frame: Seq<Rect>) -> Seq<Shape> {
    Seq::new(frame.len(), |i: int| shape_of(frame[i]))
}

/// The place of the frame that is shown for `step` among `count` frames:
/// steps count from one, and a step before the first or after the last
/// shows the first or the last.
pub open spec fn shown_index(step: int, count: int) -> int {
    if step < 1 {
        0
    } else if step > count {
        count - 1
    } else {
        step - 1
    }
}

/// The size of an image and the frames of its last partition.
pub struct Store {
    width: usize,
    height: usize,
    steps: Vec<Vec<Rect>>,
}

impl Store {
    /// No rectangle of a stored frame ends before it starts.
    #[verifier::type_invariant]
    spec fn bounds_in_order(self) -> bool {
        forall|i: int, j: int|
            0 <= i < self.steps@.len() && 0 <= j < self.steps@[i]@.len() ==> (
            #[trigger] self.steps@[i]@[j]).x1 <= self.steps@[i]@[j].x2 && self.steps@[i]@[j].y1
                <= self.steps@[i]@[j].y2
    }

    /// Width of the image.
    pub closed spec fn width(&self) -> int {
        self.width as int
    }

    /// Height of the image.
    pub closed spec fn height(&self) -> int {
        self.height as int
    }

    /// The stored frames.
    pub closed spec fn steps(&self) -> Seq<Seq<Rect>> {
        frames_view(self.steps@)
    }

    /// The groups of the document that `vis_svg` composes for `step`: none
    /// while no frame is stored, else the shapes of the frame shown.
    pub open spec fn shown(&self, step: u32) -> Seq<Seq<Shape>> {
        if self.steps().len() == 0 {
            Seq::empty()
        } else {
            seq![frame_shapes(self.steps()[shown_index(step as int, self.steps().len() as int)])]
        }
    }

    /// A store without an image.
    pub fn new() -> (store: Self)
        ensures
            store.width() == 0,
            store.height() == 0,
            store.steps() == Seq::<Seq<Rect>>::empty(),
    {
        let store = Store { width: 0, height: 0, steps: Vec::new() };
        store
    }

    /// Forgets the image and its frames.
    pub fn clear(&mut self)
        ensures
            final(self).width() == 0,
            final(self).height() == 0,
            final(self).steps() == Seq::<Seq<Rect>>::empty(),
    {
        self.steps = Vec::new();
        self.width = 0;
        self.height = 0;
    }

    /// Sets the size of the image to come and forgets the frames.
    pub fn init(&mut self, width: usize, height: usize)
        ensures
            final(self).width() == width,
            final(self).height() == height,
            final(self).steps() == Seq::<Seq<Rect>>::empty(),
    {
        self.steps = Vec::new();
        self.width = width;
        self.height = height;
    }

    /// Partitions an image of the size set by `init`, given with four bytes
    /// per pixel of which the fourth is ignored, and stores the frames.
    ///
    /// Only the greedy partitioner, number 1, is to be had. Where the run
    /// is refused the frames stored before stay.
    pub fn run_algorithm_with_image(
        &mut self,
        algorithm_id: usize,
        num_rectangles: usize,
        rgba: &[u8],
    ) -> (result: Result<(), StoreError>)
        ensures
            final(self).width() == old(self).width(),
            final(self).height() == old(self).height(),
            match result {
                Ok(_) => {
                    &&& algorithm_id == GREEDY
                    &&& input_error(
                        num_rectangles as int,
                        old(self).width(),
                        old(self).height(),
                        without_alpha(rgba@).len() as int,
                    ) is None
                    &&& is_greedy_run(
                        image(
                            without_alpha(rgba@),
                            old(self).width() as nat,
                            old(self).height() as nat,
                        ),
                        final(self).steps(),
                        num_rectangles as int,
                    )
                },
                Err(error) => {
                    &&& final(self).steps() == old(self).steps()
                    &&& algorithm_id != GREEDY ==> error == StoreError::InvalidAlgorithm
                    &&& algorithm_id == GREEDY ==> Some(error) == match input_error(
                        num_rectangles as int,
                        old(self).width(),
                        old(self).height(),
                        without_alpha(rgba@).len() as int,
                    ) {
                        Some(fault) => Some(StoreError::Partition(fault)),
                        None => None,
                    }
                },
            },
    {
        let rgb_data: Vec<u8> = drop_alpha(rgba);
        if algorithm_id != GREEDY {
            return Err(StoreError::InvalidAlgorithm);
        }
        match run_greedy(num_rectangles, self.width, self.height, rgb_data.as_slice()) {
            Ok(steps) => {
                proof {
                    let p = image(rgb_data@, self.width as nat, self.height as nat);
                    let frames = frames_view(steps@);
                    assert forall|i: int, j: int|
                        0 <= i < steps@.len() && 0 <= j < steps@[i]@.len() implies (
                    #[trigger] steps@[i]@[j]).x1 <= steps@[i]@[j].x2 && steps@[i]@[j].y1
                        <= steps@[i]@[j].y2 by {
                        let regions = crate::frame_regions(frames[i]);
                        assert(regions[j] == frames[i][j].region());
                    }
                }
                self.steps = steps;
                Ok(())
            },
            Err(fault) => Err(StoreError::Partition(fault)),
        }
    }

    /// The markup of the frame at `step`, counted from one; a step outside
    /// the stored frames shows the nearest one. Without frames the document
    /// is empty.
    pub fn vis_svg(&self, step: u32) -> (markup: String)
        ensures
            markup@ == document_markup(self.width(), self.height(), self.shown(step)),
    {
        proof {
            use_type_invariant(self);
        }
        let count: usize = self.steps.len();
        if count == 0 {
            return blank_document(self.width, self.height);
        }
        let idx: usize = if step < 1 {
            0
        } else if step as usize > count {
            count - 1
        } else {
            step as usize - 1
        };
        let frame: &Vec<Rect> = &self.steps[idx];
        let mut group = empty_group();
        let mut i: usize = 0;
        while i < frame.len()
            invariant
                i <= frame@.len(),
                forall|j: int|
                    0 <= j < frame@.len() ==> (#[trigger] frame@[j]).x1 <= frame@[j].x2
                        && frame@[j].y1 <= frame@[j].y2,
                group_shapes(group) == frame_shapes(frame@).take(i as int),
            decreases frame@.len() - i,
        {
            let r: Rect = frame[i];
            let text: String = fill(r.color);
            group = group_with_rect(
                group,
                r.x1 as i32,
                r.y1 as i32,
                (r.x2 - r.x1) as i32,
                (r.y2 - r.y1) as i32,
                text.as_str(),
            );
            proof {
                assert(frame_shapes(frame@).take(i as int).push(shape_of(frame@[i as int]))
                    =~= frame_shapes(frame@).take(i as int + 1));
            }
            i = i + 1;
        }
        proof {
            assert(frame_shapes(frame@).take(frame@.len() as int) =~= frame_shapes(frame@));
        }
        framed_document(self.width, self.height, group)
    }

    /// Number of stored frames, cut down to 32 bits.
    pub fn step_count(&self) -> (count: u32)
        ensures
            count == self.steps().len() as u32,
    {
        #[verifier::truncate]
        (self.steps.len() as u32)
    }

    /// Gives the store up.
    pub fn free(self) {
    }
}

impl Default for Store {
    fn default() -> (store: Self)
        ensures
            store.width() == 0,
            store.height() == 0,
            store.steps() == Seq::<Seq<Rect>>::empty(),
    {
        Store::new()
    }
}

} // verus!
