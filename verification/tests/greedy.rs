use rect_mosaic::{run_greedy, PartitionError, Rect};

fn rect(x1: u16, y1: u16, x2: u16, y2: u16, color: u32) -> Rect {
    Rect { x1, y1, x2, y2, color }
}

fn covers_once(frame: &[Rect], width: u16, height: u16) -> bool {
    for y in 0..height {
        for x in 0..width {
            let mut hits = 0;
            for r in frame {
                if r.x1 <= x && x < r.x2 && r.y1 <= y && y < r.y2 {
                    hits += 1;
                }
            }
            if hits != 1 {
                return false;
            }
        }
    }
    true
}

#[test]
fn black_and_white_pair_is_cut_between_the_pixels() {
    let pixels = [0u8, 0, 0, 255, 255, 255];
    let frames = run_greedy(2, 2, 1, &pixels).unwrap();
    assert_eq!(frames.len(), 2);
    assert_eq!(frames[0], vec![rect(0, 0, 2, 1, 0x7F7F7F)]);
    assert_eq!(frames[1], vec![rect(0, 0, 1, 1, 0x000000), rect(1, 0, 2, 1, 0xFFFFFF)]);
}

#[test]
fn single_pixel_gives_a_single_frame() {
    let pixels = [12u8, 200, 77];
    let frames = run_greedy(5, 1, 1, &pixels).unwrap();
    assert_eq!(frames.len(), 1);
    assert_eq!(frames[0], vec![rect(0, 0, 1, 1, 0x0CC84D)]);
}

#[test]
fn uniform_image_is_never_cut() {
    let mut pixels = Vec::new();
    for _ in 0..(4 * 3) {
        pixels.extend_from_slice(&[10u8, 20, 30]);
    }
    let frames = run_greedy(3, 4, 3, &pixels).unwrap();
    assert_eq!(frames.len(), 1);
    assert_eq!(frames[0], vec![rect(0, 0, 4, 3, 0x0A141E)]);
}

#[test]
fn frame_i_has_i_plus_one_rectangles() {
    let mut pixels = Vec::new();
    for i in 0..(5 * 4) {
        let v = (i * 37 % 251) as u8;
        pixels.extend_from_slice(&[v, v / 2, 255 - v]);
    }
    let frames = run_greedy(6, 5, 4, &pixels).unwrap();
    assert!(frames.len() <= 6);
    for (i, frame) in frames.iter().enumerate() {
        assert_eq!(frame.len(), i + 1);
    }
    assert_eq!(frames.len(), 6);
}

#[test]
fn every_frame_tiles_the_image() {
    let mut pixels = Vec::new();
    for i in 0..(6 * 5) {
        let v = (i * 53 % 256) as u8;
        pixels.extend_from_slice(&[v, 255 - v, (i * 7 % 256) as u8]);
    }
    let frames = run_greedy(9, 6, 5, &pixels).unwrap();
    assert!(!frames.is_empty());
    for frame in &frames {
        assert!(covers_once(frame, 6, 5));
        for r in frame {
            assert!(r.x1 < r.x2 && r.x2 <= 6);
            assert!(r.y1 < r.y2 && r.y2 <= 5);
        }
    }
}

#[test]
fn each_frame_replaces_one_rectangle_by_two() {
    let mut pixels = Vec::new();
    for i in 0..(4 * 4) {
        let v = (i * 91 % 256) as u8;
        pixels.extend_from_slice(&[v, v, v]);
    }
    let frames = run_greedy(7, 4, 4, &pixels).unwrap();
    for pair in frames.windows(2) {
        let (prev, next) = (&pair[0], &pair[1]);
        assert_eq!(next.len(), prev.len() + 1);
        let gone: Vec<&Rect> = prev.iter().filter(|r| !next.contains(r)).collect();
        assert_eq!(gone.len(), 1);
        let parent = gone[0];
        let first = next[next.len() - 2];
        let second = next[next.len() - 1];
        assert_eq!((first.x1, first.y1), (parent.x1, parent.y1));
        assert_eq!((second.x2, second.y2), (parent.x2, parent.y2));
        let across = first.y2 == second.y1 && first.x1 == second.x1 && first.x2 == second.x2;
        let along = first.x2 == second.x1 && first.y1 == second.y1 && first.y2 == second.y2;
        assert!(across || along);
        let kept: Vec<Rect> = prev.iter().filter(|r| *r != parent).cloned().collect();
        assert_eq!(&next[..next.len() - 2], &kept[..]);
    }
}

#[test]
fn run_stops_when_every_rectangle_is_a_pixel() {
    let pixels = [0u8, 0, 0, 90, 90, 90, 255, 255, 255];
    let frames = run_greedy(10, 3, 1, &pixels).unwrap();
    assert_eq!(frames.len(), 3);
    assert_eq!(frames[0], vec![rect(0, 0, 3, 1, 0x737373)]);
    assert_eq!(frames[1], vec![rect(0, 0, 2, 1, 0x2D2D2D), rect(2, 0, 3, 1, 0xFFFFFF)]);
    assert_eq!(
        frames[2],
        vec![rect(2, 0, 3, 1, 0xFFFFFF), rect(0, 0, 1, 1, 0x000000), rect(1, 0, 2, 1, 0x5A5A5A)]
    );
}

#[test]
fn one_rectangle_asked_gives_the_whole_image() {
    let pixels = [1u8, 2, 3, 3, 4, 5];
    let frames = run_greedy(1, 1, 2, &pixels).unwrap();
    assert_eq!(frames, vec![vec![rect(0, 0, 1, 2, 0x020304)]]);
}

#[test]
fn zero_rectangles_is_rejected() {
    assert_eq!(run_greedy(0, 1, 1, &[0, 0, 0]), Err(PartitionError::NoRectangles));
}

#[test]
fn empty_image_is_rejected() {
    assert_eq!(run_greedy(3, 0, 4, &[]), Err(PartitionError::EmptyImage));
    assert_eq!(run_greedy(3, 4, 0, &[]), Err(PartitionError::EmptyImage));
}

#[test]
fn oversized_image_is_rejected() {
    assert_eq!(run_greedy(3, 65536, 1, &[]), Err(PartitionError::ImageTooLarge));
    assert_eq!(run_greedy(3, 1, 65536, &[]), Err(PartitionError::ImageTooLarge));
}

#[test]
fn buffer_of_wrong_length_is_rejected() {
    assert_eq!(run_greedy(3, 2, 1, &[0, 0, 0]), Err(PartitionError::BufferMismatch));
    assert_eq!(run_greedy(3, 1, 1, &[0, 0, 0, 0]), Err(PartitionError::BufferMismatch));
}

#[test]
fn first_fault_found_is_reported() {
    assert_eq!(run_greedy(0, 0, 0, &[1]), Err(PartitionError::NoRectangles));
    assert_eq!(run_greedy(1, 0, 70000, &[1]), Err(PartitionError::EmptyImage));
}
