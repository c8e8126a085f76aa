use rect_mosaic::RGBGrid;

fn gray(values: &[u64]) -> Vec<u64> {
    let mut data = Vec::new();
    for v in values {
        data.extend_from_slice(&[*v, 2 * *v, 3 * *v]);
    }
    data
}

#[test]
fn whole_image_sum_is_the_sum_of_all_samples() {
    let grid = RGBGrid::new(3, 2, &gray(&[1, 2, 3, 4, 5, 6]));
    assert_eq!(grid.get_sum(0, 0, 2, 3), (21, 42, 63));
}

#[test]
fn rectangle_sums_match_a_direct_count() {
    let values = [7u64, 0, 9, 4, 1, 3, 8, 2, 6, 5, 11, 13];
    let grid = RGBGrid::new(4, 3, &gray(&values));
    for top in 0..=3 {
        for bottom in top..=3 {
            for left in 0..=4 {
                for right in left..=4 {
                    let mut want = 0u64;
                    for y in top..bottom {
                        for x in left..right {
                            want += values[y * 4 + x];
                        }
                    }
                    assert_eq!(grid.get_sum(top, left, bottom, right), (want, 2 * want, 3 * want));
                }
            }
        }
    }
}

#[test]
fn lookup_away_from_a_heavy_corner_does_not_underflow() {
    let grid = RGBGrid::new(2, 2, &gray(&[100, 0, 0, 0]));
    assert_eq!(grid.get_sum(1, 1, 2, 2), (0, 0, 0));
    assert_eq!(grid.get_sum(0, 0, 1, 1), (100, 200, 300));
}

#[test]
fn empty_rectangles_sum_to_zero() {
    let grid = RGBGrid::new(2, 2, &gray(&[5, 6, 7, 8]));
    assert_eq!(grid.get_sum(1, 0, 1, 2), (0, 0, 0));
    assert_eq!(grid.get_sum(0, 2, 2, 2), (0, 0, 0));
}

#[test]
fn channels_are_summed_apart() {
    let grid = RGBGrid::new(2, 1, &[1, 10, 100, 2, 20, 200]);
    assert_eq!(grid.get_sum(0, 0, 1, 2), (3, 30, 300));
    assert_eq!(grid.get_sum(0, 1, 1, 2), (2, 20, 200));
}

#[test]
fn image_without_pixels_has_a_table_of_zeros() {
    let grid = RGBGrid::new(0, 0, &[]);
    assert_eq!(grid.get_sum(0, 0, 0, 0), (0, 0, 0));
    let flat = RGBGrid::new(3, 0, &[]);
    assert_eq!(flat.get_sum(0, 0, 0, 3), (0, 0, 0));
}

#[test]
fn samples_beyond_the_image_are_ignored() {
    let grid = RGBGrid::new(1, 1, &[4, 5, 6, 99, 99, 99]);
    assert_eq!(grid.get_sum(0, 0, 1, 1), (4, 5, 6));
}

#[test]
fn sums_of_the_two_parts_of_a_cut_add_up() {
    let values = [3u64, 1, 4, 1, 5, 9, 2, 6, 5, 3, 5, 8];
    let grid = RGBGrid::new(4, 3, &gray(&values));
    let whole = grid.get_sum(0, 0, 3, 4);
    for y in 1..3 {
        let a = grid.get_sum(0, 0, y, 4);
        let b = grid.get_sum(y, 0, 3, 4);
        assert_eq!((a.0 + b.0, a.1 + b.1, a.2 + b.2), whole);
    }
    for x in 1..4 {
        let a = grid.get_sum(0, 0, 3, x);
        let b = grid.get_sum(0, x, 3, 4);
        assert_eq!((a.0 + b.0, a.1 + b.1, a.2 + b.2), whole);
    }
}
