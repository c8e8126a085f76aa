use rect_mosaic::color::pack;
use rect_mosaic::{RGBGrid, Rect, Rectangle, RectangleSplit, SplitLine};

fn tables(width: usize, height: usize, gray: &[u64]) -> (RGBGrid, RGBGrid) {
    let mut linear = Vec::new();
    let mut squared = Vec::new();
    for v in gray {
        linear.extend_from_slice(&[*v, *v, *v]);
        squared.extend_from_slice(&[v * v, v * v, v * v]);
    }
    (RGBGrid::new(width, height, &linear), RGBGrid::new(width, height, &squared))
}

fn area(top: usize, left: usize, bottom: usize, right: usize) -> Rectangle {
    Rectangle { top, left, bottom, right }
}

#[test]
fn horizontal_cut_gives_upper_and_lower_part() {
    let parts = area(2, 3, 10, 8).split(SplitLine::Horizontal(5));
    assert_eq!(parts, (area(2, 3, 5, 8), area(5, 3, 10, 8)));
}

#[test]
fn vertical_cut_gives_left_and_right_part() {
    let parts = area(2, 3, 10, 8).split(SplitLine::Vertical(4));
    assert_eq!(parts, (area(2, 3, 10, 4), area(2, 4, 10, 8)));
}

#[test]
fn cost_is_sum_of_squares_less_square_of_sum_over_area() {
    let (lin, sq) = tables(2, 1, &[0, 255]);
    // per channel 65025 - 255 * 255 / 2 = 65025 - 32512
    assert_eq!(area(0, 0, 1, 2).evaluate_cost(&lin, &sq), 3 * 32513);
    assert_eq!(area(0, 0, 1, 1).evaluate_cost(&lin, &sq), 0);
    assert_eq!(area(0, 1, 1, 2).evaluate_cost(&lin, &sq), 0);
}

#[test]
fn quotient_of_the_cost_is_rounded_down() {
    let (lin, sq) = tables(3, 1, &[1, 1, 0]);
    // per channel 2 - 4 / 3 = 2 - 1
    assert_eq!(area(0, 0, 1, 3).evaluate_cost(&lin, &sq), 3);
}

#[test]
fn cost_of_a_uniform_rectangle_is_zero() {
    let (lin, sq) = tables(3, 2, &[9, 9, 9, 9, 9, 9]);
    assert_eq!(area(0, 0, 2, 3).evaluate_cost(&lin, &sq), 0);
    assert_eq!(area(0, 0, 2, 3).find_best_split(&lin, &sq), (SplitLine::Horizontal(0), 0));
}

#[test]
fn best_cut_of_black_and_white_is_between_them() {
    let (lin, sq) = tables(2, 1, &[0, 255]);
    assert_eq!(area(0, 0, 1, 2).find_best_split(&lin, &sq), (SplitLine::Vertical(1), 97539));
}

#[test]
fn single_pixel_has_no_cut() {
    let (lin, sq) = tables(2, 2, &[1, 2, 3, 4]);
    assert_eq!(area(1, 1, 2, 2).find_best_split(&lin, &sq), (SplitLine::Horizontal(1), 0));
}

#[test]
fn horizontal_cut_wins_a_tie_with_a_vertical_cut() {
    let (lin, sq) = tables(2, 2, &[0, 10, 10, 20]);
    let (line, gain) = area(0, 0, 2, 2).find_best_split(&lin, &sq);
    assert_eq!(line, SplitLine::Horizontal(1));
    assert_eq!(gain, 3 * 100);
}

#[test]
fn first_of_two_equal_cuts_wins() {
    let (lin, sq) = tables(3, 1, &[0, 100, 0]);
    // both cuts leave one pixel and a pair of cost 5000 per channel
    let (line, gain) = area(0, 0, 1, 3).find_best_split(&lin, &sq);
    assert_eq!(line, SplitLine::Vertical(1));
    assert_eq!(gain, 3 * (6667 - 5000));
}

#[test]
fn later_cut_wins_only_with_a_greater_gain() {
    let (lin, sq) = tables(1, 4, &[0, 0, 0, 90]);
    let (line, _) = area(0, 0, 4, 1).find_best_split(&lin, &sq);
    assert_eq!(line, SplitLine::Horizontal(3));
}

#[test]
fn cut_that_rounding_makes_costlier_is_never_chosen() {
    let (lin, sq) = tables(4, 1, &[1, 0, 1, 0]);
    let whole = area(0, 0, 1, 4);
    assert_eq!(whole.evaluate_cost(&lin, &sq), 3);
    let halves = whole.split(SplitLine::Vertical(2));
    assert_eq!(halves.0.evaluate_cost(&lin, &sq) + halves.1.evaluate_cost(&lin, &sq), 6);
    assert_eq!(whole.find_best_split(&lin, &sq), (SplitLine::Horizontal(0), 0));
}

#[test]
fn best_cut_stays_inside_the_rectangle() {
    let (lin, sq) = tables(4, 3, &[5, 9, 200, 7, 1, 0, 180, 3, 250, 240, 2, 8]);
    let r = area(1, 1, 3, 4);
    let (line, gain) = r.find_best_split(&lin, &sq);
    assert!(gain > 0);
    match line {
        SplitLine::Horizontal(y) => assert!(1 < y && y < 3),
        SplitLine::Vertical(x) => assert!(1 < x && x < 4),
    }
    let parts = r.split(line);
    let left = r.evaluate_cost(&lin, &sq)
        - parts.0.evaluate_cost(&lin, &sq)
        - parts.1.evaluate_cost(&lin, &sq);
    assert_eq!(left, gain as u128);
}

#[test]
fn candidate_keeps_what_it_is_given() {
    let c = RectangleSplit::new(area(1, 2, 3, 4), SplitLine::Vertical(3), 42);
    assert_eq!(c.rectangle, area(1, 2, 3, 4));
    assert_eq!(c.split_line, SplitLine::Vertical(3));
    assert_eq!(c.cost_decrease, 42);
}

#[test]
fn colour_packs_red_green_blue_from_the_top() {
    assert_eq!(pack(0x12, 0x34, 0x56), 0x123456);
    assert_eq!(pack(255, 255, 255), 0xFFFFFF);
    assert_eq!(pack(0, 0, 0), 0);
}

#[test]
fn mean_colour_rounds_each_channel_down() {
    let grid = RGBGrid::new(2, 1, &[0, 10, 255, 255, 11, 0]);
    let r = area(0, 0, 1, 2);
    assert_eq!(r.mean_color(&grid), 0x7F0A7F);
    assert_eq!(
        r.paint(&grid),
        Rect { x1: 0, y1: 0, x2: 2, y2: 1, color: 0x7F0A7F }
    );
}

#[test]
fn mean_colour_is_the_same_when_asked_twice() {
    let grid = RGBGrid::new(2, 2, &[3, 4, 5, 200, 100, 50, 7, 7, 7, 90, 80, 70]);
    let r = area(0, 0, 2, 2);
    let again = area(0, 0, 2, 2);
    assert_eq!(r.mean_color(&grid), again.mean_color(&grid));
    assert_eq!(r.mean_color(&grid), 0x4B2F21);
}
