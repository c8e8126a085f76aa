use rect_mosaic::candidate::richest;
use rect_mosaic::greedy::record_frame;
use rect_mosaic::{RGBGrid, Rect, Rectangle, RectangleSplit, SplitLine};

fn waiting(left: usize, right: usize, cost_decrease: u64) -> RectangleSplit {
    RectangleSplit::new(
        Rectangle { top: 0, left, bottom: 1, right },
        SplitLine::Horizontal(0),
        cost_decrease,
    )
}

#[test]
fn richest_is_the_candidate_with_the_largest_decrease() {
    let queue = vec![waiting(0, 1, 3), waiting(1, 2, 9), waiting(2, 3, 4)];
    assert_eq!(richest(&queue), 1);
}

#[test]
fn richest_of_equals_is_the_first() {
    let queue = vec![waiting(0, 1, 2), waiting(1, 2, 7), waiting(2, 3, 7), waiting(3, 4, 7)];
    assert_eq!(richest(&queue), 1);
    let flat = vec![waiting(0, 1, 0), waiting(1, 2, 0)];
    assert_eq!(richest(&flat), 0);
}

#[test]
fn richest_of_one_is_that_one() {
    assert_eq!(richest(&vec![waiting(0, 1, 0)]), 0);
}

#[test]
fn frame_records_the_queue_in_order_with_mean_colours() {
    let grid = RGBGrid::new(3, 1, &[10, 20, 30, 30, 40, 50, 250, 0, 1]);
    let queue = vec![waiting(2, 3, 0), waiting(0, 2, 5)];
    assert_eq!(
        record_frame(&queue, &grid),
        vec![
            Rect { x1: 2, y1: 0, x2: 3, y2: 1, color: 0xFA0001 },
            Rect { x1: 0, y1: 0, x2: 2, y2: 1, color: 0x141E28 },
        ]
    );
}

#[test]
fn frame_of_an_empty_queue_is_empty() {
    let grid = RGBGrid::new(1, 1, &[1, 2, 3]);
    assert_eq!(record_frame(&Vec::new(), &grid), Vec::<Rect>::new());
}
