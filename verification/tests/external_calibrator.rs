use embedded_camera_calibration::external_calibrator::{
    accept_corners, board_steps, find_containing_cell,
    get_projector_image_coordinate_on_checkerboard_corners, isolate_projector, order_corners,
    patch_correspondences, patch_pixels, strongest_line, BoardSearch, BoardStep, Cell,
    ExternalCalibrator, ExternalError, GridPoint, LocateStep, SearchEvent, SearchStep, WindowStep,
    CANCEL_KEY, DISCARD_KEY,
};
use embedded_camera_calibration::external_camera::Scene;
use embedded_camera_calibration::float_bits::F32;
use embedded_camera_calibration::patterns::{Axis, Stroke};
use embedded_camera_calibration::types::{Point2f, Point2i, Size};

fn single(v: f32) -> F32 {
    F32 { bits: v.to_bits() }
}

fn point(x: f32, y: f32) -> Point2f {
    Point2f { x: single(x), y: single(y) }
}

fn calibrator(cols: i32, rows: i32) -> ExternalCalibrator {
    ExternalCalibrator::new(
        Size { width: 1280, height: 800 },
        Size { width: cols, height: rows },
        single(20.0),
    )
}

fn numbers(values: &[f32]) -> Vec<F32> {
    values.iter().map(|&v| single(v)).collect()
}

#[test]
fn keys_are_q_and_n() {
    assert_eq!(CANCEL_KEY, 'q' as i32);
    assert_eq!(DISCARD_KEY, 'n' as i32);
}

#[test]
fn messages_are_those_the_operator_knows() {
    assert_eq!(ExternalError::BoardNotDetected.message(), "Checkerboard was not detected.");
    assert_eq!(
        ExternalError::DetectionCancelled.message(),
        "checkerboard detection cancelled by user"
    );
    assert_eq!(ExternalError::NoLines(Axis::X).message(), "Couldn't find any lines on X.");
    assert_eq!(ExternalError::NoLines(Axis::Y).message(), "Couldn't find any lines on Y.");
    assert_eq!(ExternalError::PositionsCancelled.message(), "cancelled this input by user");
    assert_eq!(
        ExternalError::MissingCorner { index: 107, count: 96 }.message(),
        "Index: 107 out of bounds: 0..96 (code: StsOutOfRange, -211)"
    );
    assert_eq!(
        ExternalError::WaitCancelled.message(),
        "cancelled while waiting for the external camera"
    );
}

#[test]
fn corners_run_from_top_left() {
    let forward = vec![point(1.0, 9.0), point(2.0, 5.0), point(3.0, 1.0)];
    let mut backward = forward.clone();
    backward.reverse();
    assert_eq!(order_corners(forward.clone()), forward);
    assert_eq!(order_corners(backward), forward);
    assert_eq!(order_corners(order_corners(forward.clone())), forward);
}

#[test]
fn corners_of_equal_x_run_by_y() {
    let forward = vec![point(1.0, 2.0), point(7.0, 7.0), point(1.0, 3.0)];
    let mut backward = forward.clone();
    backward.reverse();
    assert_eq!(order_corners(backward), forward);
    let zeros = vec![point(0.0, 3.0), point(-0.0, 2.0)];
    assert_eq!(order_corners(zeros.clone()), vec![zeros[1], zeros[0]]);
}

#[test]
fn undecided_corners_stay() {
    let odd = vec![point(f32::NAN, 3.0), point(1.0, 2.0)];
    assert_eq!(order_corners(odd.clone()), odd);
    let one = vec![point(1.0, 1.0)];
    assert_eq!(order_corners(one.clone()), one);
}

#[test]
fn a_board_must_be_found() {
    assert_eq!(accept_corners(false, vec![]), Err(ExternalError::BoardNotDetected));
    let corners = vec![point(5.0, 0.0), point(1.0, 0.0)];
    assert_eq!(
        accept_corners(true, corners.clone()).unwrap(),
        vec![corners[1], corners[0]]
    );
}

#[test]
fn the_second_projector_lights_the_board() {
    assert_eq!(
        board_steps(),
        vec![
            BoardStep::Expose(Scene::LitBoard.exposure()),
            BoardStep::White(1),
            BoardStep::Wait(300),
            BoardStep::Capture(0),
            BoardStep::Black(1),
            BoardStep::Wait(300),
        ]
    );
}

#[test]
fn all_projectors_but_the_target_are_blanked() {
    assert_eq!(
        isolate_projector(3, 1),
        vec![
            WindowStep::SetUp(0),
            WindowStep::Blank(0),
            WindowStep::SetUp(1),
            WindowStep::SetUp(2),
            WindowStep::Blank(2),
            WindowStep::Repaint,
        ]
    );
    assert_eq!(isolate_projector(0, 0), vec![WindowStep::Repaint]);
}

#[test]
fn the_search_repeats_until_the_board_is_found() {
    let size = Size { width: 60, height: 40 };
    let miss = || SearchEvent::Looked { found: false, corners: vec![], image_size: size };
    let mut search = BoardSearch::Looking;
    for key in [-1, 110, 32] {
        search = search.next(miss());
        assert!(matches!(search, BoardSearch::Asking));
        search = search.next(SearchEvent::Key(key));
        assert!(matches!(search, BoardSearch::Looking));
    }
    search = search.next(SearchEvent::Looked {
        found: true,
        corners: vec![point(2.0, 0.0), point(1.0, 0.0)],
        image_size: size,
    });
    let (corners, image_size) = search.outcome().unwrap().unwrap();
    assert_eq!(corners, vec![point(1.0, 0.0), point(2.0, 0.0)]);
    assert_eq!(image_size, size);
}

fn camera_steps(steps: Vec<SearchStep>) -> Vec<SearchStep> {
    steps
        .into_iter()
        .filter(|step| !matches!(step, SearchStep::Darken(_) | SearchStep::Ask(_)))
        .collect()
}

#[test]
fn every_look_sets_the_camera_up_and_every_pattern_is_captured_once() {
    let size = Size { width: 60, height: 40 };
    let look = |found: bool| SearchEvent::Looked {
        found,
        corners: vec![point(1.0, 0.0)],
        image_size: size,
    };
    let mut search = BoardSearch::Looking;
    assert_eq!(
        search.steps(1, 3),
        vec![
            SearchStep::Darken(1),
            SearchStep::Expose(Scene::DarkBoard.exposure()),
            SearchStep::Look(1),
        ]
    );
    let mut calls = vec![];
    for event in [look(false), SearchEvent::Key(-1), look(false), SearchEvent::Key(32), look(true)] {
        calls.extend(camera_steps(search.steps(1, 3)));
        search = search.next(event);
    }
    calls.extend(camera_steps(search.steps(1, 3)));
    let mut expected = vec![];
    for _ in 0..3 {
        expected.push(SearchStep::Expose(Scene::DarkBoard.exposure()));
        expected.push(SearchStep::Look(1));
    }
    expected.push(SearchStep::Expose(Scene::Pattern.exposure()));
    for code in 0..3 {
        expected.push(SearchStep::CaptureCode { window: 1, code });
    }
    assert_eq!(calls, expected);
}

#[test]
fn a_cancelled_search_captures_no_pattern() {
    assert_eq!(BoardSearch::Asking.steps(0, 9), vec![SearchStep::Ask(5000)]);
    assert!(BoardSearch::Cancelled.steps(0, 9).is_empty());
}

#[test]
fn the_operator_can_cancel_the_search() {
    let size = Size { width: 60, height: 40 };
    let search = BoardSearch::Looking
        .next(SearchEvent::Looked { found: false, corners: vec![], image_size: size })
        .next(SearchEvent::Key('q' as i32));
    assert_eq!(search.outcome(), Some(Err(ExternalError::DetectionCancelled)));
    assert!(BoardSearch::Looking.outcome().is_none());
    assert!(BoardSearch::Asking.outcome().is_none());
}

#[test]
fn the_strongest_line_is_kept() {
    assert_eq!(strongest_line(Axis::X, &numbers(&[500.0, 812.0, 700.0])), Ok(1));
    assert_eq!(strongest_line(Axis::Y, &numbers(&[-3.0, -1.0, -2.0])), Ok(1));
    assert_eq!(strongest_line(Axis::X, &numbers(&[4.0])), Ok(0));
}

#[test]
fn of_equally_strong_lines_the_first_is_kept() {
    assert_eq!(strongest_line(Axis::X, &numbers(&[1.0, 9.0, 9.0, 3.0, 9.0])), Ok(1));
    assert_eq!(strongest_line(Axis::X, &numbers(&[-0.0, 0.0])), Ok(0));
}

#[test]
fn no_line_is_an_error() {
    assert_eq!(
        strongest_line(Axis::Y, &vec![]),
        Err(ExternalError::NoLines(Axis::Y))
    );
}

#[test]
fn lines_go_through_the_rounded_pixel() {
    let steps = calibrator(12, 9).locate_steps(point(100.5, 7.4));
    assert_eq!(steps.len(), 3);
    assert!(matches!(&steps[0], LocateStep::Expose(e) if *e == Scene::Pattern.exposure()));
    let expected = [
        (Axis::X, Stroke { from: Point2i { x: 101, y: 0 }, to: Point2i { x: 101, y: 799 } }),
        (Axis::Y, Stroke { from: Point2i { x: 0, y: 7 }, to: Point2i { x: 1279, y: 7 } }),
    ];
    for (step, (line, stroke)) in steps[1..].iter().zip(expected) {
        match step {
            LocateStep::Capture { window, axis, strokes } => {
                assert_eq!((*window, *axis), (0, line));
                assert_eq!(*strokes, vec![stroke]);
            }
            LocateStep::Expose(_) => panic!("the camera is set up once"),
        }
    }
}

#[test]
fn cells_know_their_corners() {
    let cells = calibrator(3, 3).board_cells(9).unwrap();
    assert_eq!(cells.len(), 4);
    assert_eq!(
        cells[3],
        Cell {
            row: 1,
            col: 1,
            top_left: 4,
            top_right: 5,
            bottom_left: 7,
            bottom_right: 8,
        }
    );
    assert_eq!((cells[1].row, cells[1].col), (0, 1));
    assert_eq!(calibrator(1, 5).board_cells(0), Ok(vec![]));
    assert_eq!(calibrator(0, -3).board_cells(0), Ok(vec![]));
}

/// The first index that is looked up among `count` corners and is not there.
fn first_missing(cols: usize, rows: usize, count: usize) -> Option<usize> {
    for row in 0..rows - 1 {
        for col in 0..cols - 1 {
            let (upper, lower) = (row * cols + col, (row + 1) * cols + col);
            for index in [upper, upper + 1, lower, lower + 1] {
                if index >= count {
                    return Some(index);
                }
            }
        }
    }
    None
}

#[test]
fn a_corner_that_is_missing_is_named() {
    let board = calibrator(4, 3);
    assert_eq!(
        board.board_cells(0),
        Err(ExternalError::MissingCorner { index: 0, count: 0 })
    );
    assert_eq!(
        board.board_cells(3),
        Err(ExternalError::MissingCorner { index: 4, count: 3 })
    );
    for count in 0..=12 {
        match board.board_cells(count) {
            Ok(cells) => {
                assert_eq!(cells.len(), 6);
                assert_eq!(first_missing(4, 3, count), None);
            }
            Err(ExternalError::MissingCorner { index, count: n }) => {
                assert_eq!(n, count);
                assert_eq!(first_missing(4, 3, count), Some(index));
            }
            Err(_) => panic!("another error"),
        }
    }
}

#[test]
fn a_board_of_very_many_corners_lacks_some() {
    let board = calibrator(65536, 65536);
    let missing = |index, count| ExternalError::MissingCorner { index, count };
    assert_eq!(board.board_cells(100), Err(missing(65536, 100)));
    assert_eq!(board.board_cells(65540), Err(missing(65540, 65540)));
    assert_eq!(board.get_local_correspondence((0, 0), 2), Err(missing(2, 2)));
    assert_eq!(board.get_local_correspondence((0, 0), 3), Err(missing(65536, 3)));
}

#[test]
fn the_nearest_cell_contains_the_point() {
    let cells = calibrator(3, 3).board_cells(9).unwrap();
    assert_eq!(find_containing_cell(&cells, &numbers(&[4.0, 2.0, 1.0, 1.0])), (1, 0));
    assert_eq!(
        find_containing_cell(&cells, &numbers(&[f32::NAN, 2.0, 3.0, f32::NAN])),
        (0, 1)
    );
}

#[test]
fn without_a_usable_distance_the_first_cell_is_taken() {
    let cells = calibrator(3, 3).board_cells(9).unwrap();
    let far = [f32::MAX, f32::INFINITY, f32::NAN, f32::MAX];
    assert_eq!(find_containing_cell(&cells, &numbers(&far)), (0, 0));
    assert_eq!(find_containing_cell(&vec![], &vec![]), (0, 0));
}

#[test]
fn the_neighbourhood_is_four_by_four() {
    let around = calibrator(12, 9).get_local_correspondence((4, 5), 108).unwrap();
    assert_eq!(around.len(), 16);
    assert_eq!(around[0], GridPoint { corner: 3 * 12 + 4, col: 4, row: 3 });
    assert_eq!(around[15], GridPoint { corner: 6 * 12 + 7, col: 7, row: 6 });
    assert_eq!(around[1].col, 5);
}

#[test]
fn the_neighbourhood_is_clamped_to_the_board() {
    let first = calibrator(12, 9).get_local_correspondence((0, 0), 108).unwrap();
    assert_eq!(first.len(), 9);
    assert_eq!(first[0].corner, 0);
    let last = calibrator(12, 9).get_local_correspondence((7, 10), 108).unwrap();
    assert_eq!(last.len(), 9);
    assert_eq!(last[8], GridPoint { corner: 107, col: 11, row: 8 });
    assert_eq!(
        calibrator(12, 9).get_local_correspondence((7, 10), 107),
        Err(ExternalError::MissingCorner { index: 107, count: 107 })
    );
}

#[test]
fn the_neighbourhood_holds_the_cell() {
    let board = calibrator(5, 4);
    for cell in board.board_cells(20).unwrap() {
        let around = board.get_local_correspondence((cell.row, cell.col), 20).unwrap();
        assert!(around.len() >= 4 && around.len() <= 16);
        for corner in [cell.top_left, cell.top_right, cell.bottom_left, cell.bottom_right] {
            assert!(around.iter().any(|p| p.corner == corner));
        }
    }
}

#[test]
fn patches_are_clipped_to_the_image() {
    let size = Size { width: 640, height: 480 };
    let whole = patch_pixels(point(100.4, 99.5), size);
    assert_eq!(whole.len(), 65 * 65);
    assert_eq!(whole[0], (68, 68));
    assert_eq!(whole[1], (68, 69));
    assert_eq!(whole[65], (69, 68));
    let corner = patch_pixels(point(-0.4, 479.0), size);
    assert_eq!(corner.len(), 33 * 33);
    assert_eq!(corner[0], (0, 447));
    assert!(patch_pixels(point(-33.0, 10.0), size).is_empty());
    assert_eq!(patch_pixels(point(-32.0, 10.0), size).len(), 43);
}

#[test]
fn positions_of_failed_cameras_are_skipped() {
    let board = calibrator(12, 9);
    let located = vec![(0, Some(point(1.0, 2.0))), (1, None), (2, Some(point(3.0, 4.0)))];
    let positions = board.find_effective_camera_positions(&located, -1).unwrap();
    assert_eq!(positions.len(), 2);
    assert_eq!(positions[&0], point(1.0, 2.0));
    assert_eq!(positions[&2], point(3.0, 4.0));
}

#[test]
fn the_operator_can_discard_positions() {
    let located = vec![(0, Some(point(1.0, 2.0)))];
    assert_eq!(
        calibrator(12, 9).find_effective_camera_positions(&located, 'n' as i32),
        Err(ExternalError::PositionsCancelled)
    );
}

#[test]
fn every_corner_has_its_patch() {
    let size = Size { width: 640, height: 480 };
    let corners = vec![point(100.4, 99.5), point(0.0, 0.0)];
    let patches = get_projector_image_coordinate_on_checkerboard_corners(&corners, size);
    assert_eq!(patches.len(), 2);
    assert_eq!(patches[0], patch_pixels(corners[0], size));
    assert_eq!(patches[1].len(), 33 * 33);
}

#[test]
fn patches_are_paired_with_what_they_decode_to() {
    let decoded = vec![Point2i { x: 640, y: -1 }, Point2i { x: 16777217, y: 0 }];
    let pairs = patch_correspondences(&vec![(5, 6), (5, 7)], &decoded);
    assert_eq!(pairs.from, vec![point(5.0, 6.0), point(5.0, 7.0)]);
    assert_eq!(pairs.to, vec![point(640.0, -1.0), point(16777216.0, 0.0)]);
}
