use embedded_camera_calibration::patterns::{generate_axis_lines, generate_checkered, Axis, Stroke};
use embedded_camera_calibration::types::{Point2i, Rect, Size};

fn square(x: i32, y: i32, s: i32) -> Rect {
    Rect { x, y, width: s, height: s }
}

#[test]
fn checkerboards_fill_every_other_square() {
    assert_eq!(
        generate_checkered(20, 30, 10),
        vec![square(0, 0, 10), square(10, 10, 10), square(20, 0, 10)]
    );
    assert!(generate_checkered(5, 5, 10).is_empty());
}

#[test]
fn squares_that_do_not_fit_are_left_out() {
    assert_eq!(generate_checkered(19, 25, 10), vec![square(0, 0, 10)]);
}

#[test]
fn a_pixel_is_lit_by_the_parity_of_its_square() {
    let (h, w, s) = (23, 31, 4);
    let squares = generate_checkered(h, w, s);
    for x in 0..w {
        for y in 0..h {
            let lit = squares
                .iter()
                .any(|r| r.x <= x && x < r.x + r.width && r.y <= y && y < r.y + r.height);
            let expected = x / s < w / s && y / s < h / s && (x / s + y / s) % 2 == 0;
            assert_eq!(lit, expected);
        }
    }
}

#[test]
fn lines_span_the_whole_image() {
    let size = Size { width: 1280, height: 800 };
    assert_eq!(
        generate_axis_lines(size, &vec![7, -3], Axis::X),
        vec![
            Stroke { from: Point2i { x: 7, y: 0 }, to: Point2i { x: 7, y: 799 } },
            Stroke { from: Point2i { x: -3, y: 0 }, to: Point2i { x: -3, y: 799 } },
        ]
    );
    assert_eq!(
        generate_axis_lines(size, &vec![7], Axis::Y),
        vec![Stroke { from: Point2i { x: 0, y: 7 }, to: Point2i { x: 1279, y: 7 } }]
    );
    assert!(generate_axis_lines(size, &vec![], Axis::Y).is_empty());
}
