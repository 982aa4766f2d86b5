use embedded_camera_calibration::debug_viz::{
    camera_frame_path, checker_color, debug_image_path, debug_window_size, generate_point_pairs_debug,
    get_opencv_color, header_origin, image_path, make_grid_image, output_dir,
    timestamped_output_dir, Color,
};
use embedded_camera_calibration::float_bits::F32;
use embedded_camera_calibration::types::{CameraMeshPointPair, Point2f, Point2i, Rect, Size};

#[test]
fn line_colors_cycle_through_the_palette() {
    assert_eq!(get_opencv_color(0), Color { blue: 0, green: 0, red: 255 });
    assert_eq!(get_opencv_color(3), Color { blue: 0, green: 255, red: 255 });
    assert_eq!(get_opencv_color(5), Color { blue: 255, green: 255, red: 0 });
    for i in 0..6 {
        assert_eq!(get_opencv_color(i), get_opencv_color(i + 6));
        for j in 0..i {
            assert_ne!(get_opencv_color(i), get_opencv_color(j));
        }
    }
}

#[test]
fn checkerboards_of_projectors_differ() {
    assert_eq!(checker_color(0), Color { blue: 255, green: 0, red: 0 });
    assert_eq!(checker_color(1), Color { blue: 0, green: 255, red: 0 });
    assert_eq!(checker_color(2), Color { blue: 0, green: 0, red: 255 });
    assert_eq!(checker_color(3), checker_color(0));
}

#[test]
fn outputs_are_named_by_their_stamp() {
    assert_eq!(
        output_dir(".res/evaluate_homography", "20251015-173542"),
        ".res/evaluate_homography/20251015-173542"
    );
    assert_eq!(
        image_path("out", "20251015-173542.000123"),
        "out/20251015-173542.000123.png"
    );
}

#[test]
fn run_directories_carry_the_time() {
    let path = timestamped_output_dir(".res/capture_all");
    let stamp = path.strip_prefix(".res/capture_all/").unwrap();
    assert_eq!(stamp.len(), 15);
    assert_eq!(stamp.as_bytes()[8], b'-');
    assert!(stamp[..8].chars().all(|c| c.is_ascii_digit()));
    assert!(stamp[9..].chars().all(|c| c.is_ascii_digit()));
}

#[test]
fn image_files_carry_the_time_with_its_fraction() {
    let path = debug_image_path("out");
    let stamp = path.strip_prefix("out/").unwrap().strip_suffix(".png").unwrap();
    assert_eq!(stamp.len(), 22);
    assert_eq!(stamp.as_bytes()[15], b'.');
    assert_eq!(stamp.as_bytes()[8], b'-');
    assert!(stamp[..8].chars().all(|c| c.is_ascii_digit()));
    assert!(stamp[9..15].chars().all(|c| c.is_ascii_digit()));
    assert!(stamp[16..].chars().all(|c| c.is_ascii_digit()));
}

#[test]
fn points_are_marked_with_labels_below_right() {
    let pair = CameraMeshPointPair {
        projector_position_in_embedded_camera: Point2i { x: 40, y: -2 },
        effective_camera_position_in_world: Point2f { x: F32 { bits: 0 }, y: F32 { bits: 0 } },
    };
    let marks = generate_point_pairs_debug(&vec![pair]);
    assert_eq!(marks.len(), 1);
    assert_eq!(marks[0].center, Point2i { x: 40, y: -2 });
    assert_eq!(marks[0].label_origin, Point2i { x: 45, y: 13 });
    assert_eq!(header_origin(88), Point2i { x: 10, y: 98 });
}

#[test]
fn images_are_composed_two_by_two() {
    let grid = make_grid_image(Size { width: 1920, height: 1080 });
    assert_eq!(grid.canvas, Size { width: 3849, height: 2169 });
    let cell = |x, y| Rect { x, y, width: 1920, height: 1080 };
    assert_eq!(
        grid.cells,
        vec![cell(3, 3), cell(1926, 3), cell(3, 1086), cell(1926, 1086)]
    );
    let odd = make_grid_image(Size { width: -4, height: 0 });
    assert_eq!(odd.canvas, Size { width: 1, height: 9 });
    assert_eq!(odd.cells[1], Rect { x: 2, y: 3, width: -4, height: 0 });
    assert_eq!(debug_window_size(), Size { width: 1280, height: 800 });
}

#[test]
fn camera_frames_are_named_by_camera() {
    assert_eq!(camera_frame_path("out", 3), "out/3.png");
}

#[test]
fn different_stamps_give_different_directories() {
    for base in ["", "out", "out/"] {
        assert_ne!(output_dir(base, "20251015-173542"), output_dir(base, "20251015-173543"));
        assert_ne!(
            image_path(base, "20251015-173542.000123"),
            image_path(base, "20251015-173542.000124")
        );
    }
}

#[test]
fn composed_images_do_not_touch() {
    let grid = make_grid_image(Size { width: 7, height: 5 });
    for (i, a) in grid.cells.iter().enumerate() {
        assert!(a.x >= 3 && a.x + a.width + 3 <= grid.canvas.width);
        assert!(a.y >= 3 && a.y + a.height + 3 <= grid.canvas.height);
        for b in &grid.cells[..i] {
            let beside = b.x + b.width + 3 <= a.x || a.x + a.width + 3 <= b.x;
            let below = b.y + b.height + 3 <= a.y;
            assert!(beside || below);
        }
    }
}
