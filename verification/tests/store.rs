use rect_mosaic::render::fill;
use rect_mosaic::store::drop_alpha;
use rect_mosaic::{PartitionError, Store, StoreError};
use svg::node::element::{Group, Rectangle};
use svg::Document;

const PAIR: [u8; 8] = [0, 0, 0, 255, 255, 255, 255, 7];

fn pair_store() -> Store {
    let mut store = Store::new();
    store.init(2, 1);
    store.run_algorithm_with_image(1, 2, &PAIR).unwrap();
    store
}

#[test]
fn new_store_has_no_frames() {
    let store = Store::new();
    assert_eq!(store.step_count(), 0);
    assert_eq!(
        store.vis_svg(1),
        "<svg height=\"0\" viewBox=\"0 0 0 0\" width=\"0\" xmlns=\"http://www.w3.org/2000/svg\"/>"
    );
}

#[test]
fn default_store_is_a_new_store() {
    let store = Store::default();
    assert_eq!(store.step_count(), 0);
    assert_eq!(store.vis_svg(1), Store::new().vis_svg(1));
}

#[test]
fn run_stores_one_frame_per_step() {
    let store = pair_store();
    assert_eq!(store.step_count(), 2);
}

#[test]
fn first_frame_is_one_gray_rectangle() {
    let store = pair_store();
    assert_eq!(
        store.vis_svg(1),
        "<svg height=\"1\" viewBox=\"0 0 2 1\" width=\"2\" xmlns=\"http://www.w3.org/2000/svg\">\n\
         <g shape-rendering=\"crispEdges\">\n\
         <rect fill=\"#7F7F7F\" height=\"1\" width=\"2\" x=\"0\" y=\"0\"/>\n\
         </g>\n\
         </svg>"
    );
}

#[test]
fn second_frame_is_black_then_white() {
    let store = pair_store();
    assert_eq!(
        store.vis_svg(2),
        "<svg height=\"1\" viewBox=\"0 0 2 1\" width=\"2\" xmlns=\"http://www.w3.org/2000/svg\">\n\
         <g shape-rendering=\"crispEdges\">\n\
         <rect fill=\"#000000\" height=\"1\" width=\"1\" x=\"0\" y=\"0\"/>\n\
         <rect fill=\"#FFFFFF\" height=\"1\" width=\"1\" x=\"1\" y=\"0\"/>\n\
         </g>\n\
         </svg>"
    );
}

#[test]
fn markup_is_what_the_composer_writes_for_the_same_calls() {
    let store = pair_store();
    let group = Group::new()
        .set("shape-rendering", "crispEdges")
        .add(
            Rectangle::new()
                .set("x", 0)
                .set("y", 0)
                .set("width", 1)
                .set("height", 1)
                .set("fill", "#000000"),
        )
        .add(
            Rectangle::new()
                .set("x", 1)
                .set("y", 0)
                .set("width", 1)
                .set("height", 1)
                .set("fill", "#FFFFFF"),
        );
    let doc = Document::new()
        .set("xmlns", "http://www.w3.org/2000/svg")
        .set("viewBox", (0, 0, 2, 1))
        .set("width", 2)
        .set("height", 1)
        .add(group);
    assert_eq!(store.vis_svg(2), doc.to_string());
}

#[test]
fn step_outside_the_frames_shows_the_nearest() {
    let store = pair_store();
    assert_eq!(store.vis_svg(0), store.vis_svg(1));
    assert_eq!(store.vis_svg(3), store.vis_svg(2));
    assert_eq!(store.vis_svg(u32::MAX), store.vis_svg(2));
    assert_ne!(store.vis_svg(1), store.vis_svg(2));
}

#[test]
fn store_with_a_size_and_no_frames_renders_an_empty_document() {
    let mut store = Store::new();
    store.init(640, 480);
    assert_eq!(
        store.vis_svg(1),
        "<svg height=\"480\" viewBox=\"0 0 640 480\" width=\"640\" xmlns=\"http://www.w3.org/2000/svg\"/>"
    );
}

#[test]
fn unknown_algorithm_is_refused_and_frames_stay() {
    let mut store = pair_store();
    let before = store.vis_svg(2);
    assert_eq!(store.run_algorithm_with_image(2, 2, &PAIR), Err(StoreError::InvalidAlgorithm));
    assert_eq!(store.run_algorithm_with_image(0, 2, &PAIR), Err(StoreError::InvalidAlgorithm));
    assert_eq!(store.step_count(), 2);
    assert_eq!(store.vis_svg(2), before);
}

#[test]
fn faulty_image_is_refused_and_frames_stay() {
    let mut store = pair_store();
    assert_eq!(
        store.run_algorithm_with_image(1, 0, &PAIR),
        Err(StoreError::Partition(PartitionError::NoRectangles))
    );
    assert_eq!(
        store.run_algorithm_with_image(1, 2, &PAIR[..4]),
        Err(StoreError::Partition(PartitionError::BufferMismatch))
    );
    assert_eq!(
        store.run_algorithm_with_image(1, 2, &PAIR[..6]),
        Err(StoreError::Partition(PartitionError::BufferMismatch))
    );
    assert_eq!(store.step_count(), 2);
}

#[test]
fn store_without_a_size_refuses_to_run() {
    let mut store = Store::new();
    assert_eq!(
        store.run_algorithm_with_image(1, 2, &[]),
        Err(StoreError::Partition(PartitionError::EmptyImage))
    );
    store.init(70000, 1);
    assert_eq!(
        store.run_algorithm_with_image(1, 2, &[]),
        Err(StoreError::Partition(PartitionError::ImageTooLarge))
    );
}

#[test]
fn last_pixel_may_come_without_its_fourth_byte() {
    let mut store = Store::new();
    store.init(2, 1);
    assert_eq!(store.run_algorithm_with_image(1, 2, &PAIR[..7]), Ok(()));
    assert_eq!(store.step_count(), 2);
}

#[test]
fn clear_forgets_size_and_frames() {
    let mut store = pair_store();
    store.clear();
    assert_eq!(store.step_count(), 0);
    assert_eq!(store.vis_svg(1), Store::new().vis_svg(1));
}

#[test]
fn init_forgets_the_frames() {
    let mut store = pair_store();
    store.init(3, 3);
    assert_eq!(store.step_count(), 0);
}

#[test]
fn new_run_replaces_the_frames() {
    let mut store = pair_store();
    store.run_algorithm_with_image(1, 1, &PAIR).unwrap();
    assert_eq!(store.step_count(), 1);
}

#[test]
fn store_can_be_given_up() {
    pair_store().free();
}

#[test]
fn fourth_byte_of_every_pixel_is_dropped() {
    assert_eq!(drop_alpha(&[1, 2, 3, 4, 5, 6, 7, 8]), vec![1, 2, 3, 5, 6, 7]);
    assert_eq!(drop_alpha(&[]), Vec::<u8>::new());
    assert_eq!(drop_alpha(&[1, 2, 3, 4, 5, 6, 7]), vec![1, 2, 3, 5, 6, 7]);
}

#[test]
fn pixel_that_is_cut_short_keeps_what_is_there() {
    assert_eq!(drop_alpha(&[1, 2, 3, 4, 5]), vec![1, 2, 3, 5]);
    assert_eq!(drop_alpha(&[1, 2]), vec![1, 2]);
}

#[test]
fn fill_is_six_capital_hex_digits() {
    assert_eq!(fill(0x0A141E), "#0A141E");
    assert_eq!(fill(0), "#000000");
    assert_eq!(fill(0xABCDEF), "#ABCDEF");
    assert_eq!(fill(0xABCDEF), format!("#{:06X}", 0xABCDEF));
}

#[test]
fn fill_leaves_out_the_highest_byte() {
    assert_eq!(fill(0xFF123456), "#123456");
}

#[test]
fn every_error_has_its_words() {
    assert_eq!(StoreError::InvalidAlgorithm.message(), "Invalid algorithm_id");
    assert_eq!(
        StoreError::Partition(PartitionError::NoRectangles).message(),
        "No rectangles requested"
    );
    assert_eq!(StoreError::Partition(PartitionError::EmptyImage).message(), "Image has no pixels");
    assert_eq!(
        StoreError::Partition(PartitionError::ImageTooLarge).message(),
        "Image is too large"
    );
    assert_eq!(
        StoreError::Partition(PartitionError::BufferMismatch).message(),
        "Pixel buffer does not match the image size"
    );
}
