use std::collections::HashMap;

use embedded_camera_calibration::calibrator::{CalibrationError, Calibrator, Frame, Step};
use embedded_camera_calibration::schedule::RoundTrips;
use embedded_camera_calibration::types::{CameraResult, Point2i};

fn result(n: i32) -> CameraResult {
    CameraResult {
        camera_position_in_projector: Point2i { x: n, y: n + 1 },
        projector_position_in_camera: Point2i { x: n + 2, y: n + 3 },
    }
}

fn show(projector: usize, frame: Frame) -> Step {
    Step::Show { projector, frame }
}

#[test]
fn code_widths_fit_the_rig() {
    let widths: Vec<u32> = [1usize, 2, 3, 4, 5, 8, 9]
        .iter()
        .map(|&n| Calibrator::new(1, 1, n).projector_id_bit_width())
        .collect();
    assert_eq!(widths, vec![1, 1, 2, 2, 3, 3, 4]);
    let rig = Calibrator::new(1280, 800, 3);
    assert_eq!(rig.graycode_x_count(), 11);
    assert_eq!(rig.graycode_y_count(), 10);
    assert_eq!(Calibrator::new(1024, 0, 1).graycode_x_count(), 11);
    assert_eq!(Calibrator::new(1024, 0, 1).graycode_y_count(), 0);
}

#[test]
fn arming_computes_the_host_schedule() {
    let mut rig = Calibrator::new(1, 1, 1);
    let trips = rig.set_timestamps(&vec![Some(10), Some(30)], 500, 100, 250).unwrap();
    assert_eq!(trips.longest, 30);
    assert!(rig.started);
    let times: Vec<u32> = rig.client_timestamps.iter().copied().collect();
    assert_eq!(times, vec![530, 630, 880, 980, 1080, 1180, 1280, 1380, 1480]);
}

#[test]
fn a_silent_camera_stops_the_run() {
    let mut rig = Calibrator::new(1, 1, 1);
    let e = rig.set_timestamps(&vec![Some(10), None], 500, 100, 250).unwrap_err();
    assert_eq!(e, CalibrationError::RttFailed);
    assert_eq!(e.message(), "Failed to get all RTT");
    assert!(!rig.started);
    assert!(rig.client_timestamps.is_empty());
    let mut none = Calibrator::new(1, 1, 0);
    let e = none.calibrate(&vec![None], usize::MAX, 500, 100, 250).unwrap_err();
    assert_eq!(e, CalibrationError::RttFailed);
}

#[test]
fn nothing_happens_before_the_run_is_armed() {
    let mut rig = Calibrator::new(1, 1, 1);
    assert_eq!(rig.process_position().unwrap_err(), CalibrationError::NotStarted);
    assert_eq!(rig.process_id().unwrap_err(), CalibrationError::NotStarted);
    assert_eq!(rig.process_graycode(0).unwrap_err(), CalibrationError::NotStarted);
    assert_eq!(rig.get_result(&vec![]).unwrap_err(), CalibrationError::NotStarted);
    assert_eq!(rig.finish(&vec![]).unwrap_err().message(), "Not started yet.");
}

#[test]
fn positions_are_white_then_black() {
    let mut rig = Calibrator::new(1, 1, 2);
    rig.set_timestamps(&vec![Some(0)], 5, 1, 1).unwrap();
    assert_eq!(
        rig.process_position().unwrap(),
        vec![
            Step::WaitUntil(5),
            show(0, Frame::White),
            show(1, Frame::White),
            Step::Repaint,
            Step::WaitUntil(6),
            show(0, Frame::Black),
            show(1, Frame::Black),
            Step::Repaint,
        ]
    );
}

#[test]
fn identities_are_shown_bit_by_bit_with_inverses() {
    let mut rig = Calibrator::new(1, 1, 3);
    rig.set_timestamps(&vec![Some(0)], 0, 1, 1).unwrap();
    rig.process_position().unwrap();
    let (w, b) = (Frame::White, Frame::Black);
    assert_eq!(
        rig.process_id().unwrap(),
        vec![
            Step::WaitUntil(2),
            show(0, b),
            show(1, b),
            show(2, w),
            Step::WaitUntil(3),
            show(0, w),
            show(1, w),
            show(2, b),
            Step::WaitUntil(4),
            show(0, b),
            show(1, w),
            show(2, b),
            Step::WaitUntil(5),
            show(0, w),
            show(1, b),
            show(2, w),
        ]
    );
}

#[test]
fn gray_codes_end_with_a_wait() {
    let mut rig = Calibrator::new(1, 0, 1);
    rig.set_timestamps(&vec![Some(0)], 0, 1, 1).unwrap();
    rig.process_position().unwrap();
    rig.process_id().unwrap();
    assert_eq!(
        rig.process_graycode(2).unwrap(),
        vec![
            Step::WaitUntil(4),
            show(0, Frame::Graycode(0)),
            Step::Repaint,
            Step::WaitUntil(5),
            show(0, Frame::Graycode(1)),
            Step::Repaint,
            Step::WaitUntil(6),
        ]
    );
    assert!(rig.client_timestamps.is_empty());
}

#[test]
fn a_whole_run_uses_up_its_schedule() {
    let mut rig = Calibrator::new(1280, 800, 3);
    let (trips, steps) = rig.calibrate(&vec![Some(3), Some(8)], 42, 500, 1000, 1100).unwrap();
    assert_eq!(trips.longest, 8);
    assert!(rig.client_timestamps.is_empty());
    let waits = steps.iter().filter(|s| matches!(s, Step::WaitUntil(_))).count();
    assert_eq!(waits, 2 + 2 * (2 + 11 + 10) + 1);
    assert_eq!(steps[0], Step::WaitUntil(508));
    rig.finish(&vec![None, None]).unwrap();
    assert_eq!(rig.result.as_ref().unwrap().len(), 3);
}

#[test]
fn too_few_gray_codes_leave_the_run_unfinished() {
    let mut rig = Calibrator::new(1280, 800, 3);
    rig.calibrate(&vec![Some(3)], 41, 500, 1000, 1100).unwrap();
    let e = rig.finish(&vec![None]).unwrap_err();
    assert_eq!(e, CalibrationError::NotFinished);
    assert_eq!(e.message(), "Not finished yet.");
    assert!(rig.result.is_none());
}

#[test]
fn reports_are_sorted_by_projector_and_camera() {
    let mut rig = Calibrator::new(1, 1, 2);
    rig.calibrate(&vec![Some(0)], 4, 0, 1, 1).unwrap();
    let mut first = HashMap::new();
    first.insert(0, result(10));
    first.insert(1, result(20));
    first.insert(2, result(30));
    let mut third = HashMap::new();
    third.insert(1, result(40));
    rig.finish(&vec![Some(first), None, Some(third)]).unwrap();
    let entries = rig.result.unwrap();
    assert_eq!(entries.len(), 2);
    assert_eq!(entries[0].cameras.len(), 1);
    assert_eq!(entries[0].cameras[&0], result(10));
    assert_eq!(entries[1].cameras.len(), 2);
    assert_eq!(entries[1].cameras[&0], result(20));
    assert_eq!(entries[1].cameras[&2], result(40));
}

#[test]
fn every_camera_gets_a_schedule_of_its_own() {
    let rig = Calibrator::new(1, 0, 1);
    let trips = RoundTrips { each: vec![10, 30], longest: 30 };
    assert_eq!(
        rig.camera_timestamps(&trips, 0, 500, 100, 7, 10, 20),
        vec![618, 628, 648, 658, 668, 678]
    );
    assert_eq!(rig.camera_timestamps(&trips, 1, 500, 100, 7, 10, 20)[0], 608);
}

#[test]
fn projectors_differ_in_some_identity_frame() {
    let count = 6usize;
    let mut rig = Calibrator::new(1, 1, count);
    rig.set_timestamps(&vec![Some(0)], 0, 1, 1).unwrap();
    rig.process_position().unwrap();
    let steps = rig.process_id().unwrap();
    let code = |id: usize| -> Vec<Frame> {
        steps
            .iter()
            .filter_map(|s| match s {
                Step::Show { projector, frame } if *projector == id => Some(*frame),
                _ => None,
            })
            .collect()
    };
    for p in 0..count {
        for q in 0..p {
            assert_ne!(code(p), code(q));
        }
        // Every other frame is an inverse; the highest bit comes first.
        let mut shown = 0;
        for pair in code(p).chunks(2) {
            assert_ne!(pair[0], pair[1]);
            shown = 2 * shown + usize::from(pair[0] == Frame::White);
        }
        assert_eq!(shown, p);
    }
}
