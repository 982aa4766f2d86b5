use std::collections::{BTreeMap, HashMap, VecDeque};

use embedded_camera_calibration::calibrator::{CalibrationError, Calibrator};
use embedded_camera_calibration::float_bits::{F32, F64};
use embedded_camera_calibration::patterns::Axis;
use embedded_camera_calibration::schedule::RoundTrips;
use embedded_camera_calibration::subpix::{
    additional_pattern_count, camera_timestamps_subpix, process_subpix, subpix_entries, SweepStep,
};
use embedded_camera_calibration::types::{
    CalibrationResultEntry, CameraResult, Point2d, Point2f, Point2i, Span,
};

fn seen(x: i32, y: i32) -> CameraResult {
    CameraResult {
        camera_position_in_projector: Point2i { x, y },
        projector_position_in_camera: Point2i { x: 0, y: 0 },
    }
}

fn rig(projectors: Vec<Vec<(usize, i32, i32)>>) -> Calibrator {
    let mut rig = Calibrator::new(1280, 800, projectors.len());
    rig.result = Some(
        projectors
            .into_iter()
            .map(|cameras| {
                let mut map = BTreeMap::new();
                for (id, x, y) in cameras {
                    map.insert(id, seen(x, y));
                }
                CalibrationResultEntry { cameras: map }
            })
            .collect(),
    );
    rig
}

fn lines(step: &SweepStep) -> (usize, Axis, Vec<i32>) {
    match step {
        SweepStep::Lines { projector, axis, values } => (*projector, *axis, values.clone()),
        SweepStep::WaitUntil(_) => panic!("a wait"),
    }
}

#[test]
fn coarse_positions_give_scan_ranges() {
    let spans = rig(vec![vec![(0, 100, 50), (2, 103, 400)], vec![]]).subpix_spans();
    assert_eq!(spans.len(), 2);
    assert_eq!(spans[0].0.spans, vec![Span { start: 95, end: 108 }]);
    assert_eq!(spans[0].0.tag_groups, vec![vec![0, 2]]);
    assert_eq!(
        spans[0].1.spans,
        vec![Span { start: 45, end: 55 }, Span { start: 395, end: 405 }]
    );
    assert!(spans[1].0.spans.is_empty());
    assert_eq!(additional_pattern_count(&spans), 14 + 11);
    assert_eq!(additional_pattern_count(&vec![]), 0);
}

#[test]
fn cameras_are_told_their_ranges() {
    let spans = rig(vec![vec![(0, 100, 50), (2, 103, 400)], vec![(2, 7, 8)]]).subpix_spans();
    let first = subpix_entries(&spans, 0);
    assert_eq!(first[0].x_span, Span { start: 95, end: 108 });
    assert_eq!(first[0].y_span, Span { start: 45, end: 55 });
    assert_eq!(first[0].y_starts_on, 14);
    assert_eq!(first[1].x_span, Span { start: 0, end: 0 });
    assert_eq!(first[1].y_span, Span { start: 0, end: 0 });
    assert_eq!(first[1].y_starts_on, 0);
    let third = subpix_entries(&spans, 2);
    assert_eq!(third[0].y_span, Span { start: 395, end: 405 });
    assert_eq!(third[1].x_span, Span { start: 2, end: 12 });
    assert_eq!(third[1].y_starts_on, 11);
}

#[test]
fn the_sweep_shows_x_lines_then_y_lines_then_nothing() {
    let spans = rig(vec![vec![(0, 10, 20)], vec![(0, 10, 20), (1, 18, 20)]]).subpix_spans();
    let n = additional_pattern_count(&spans);
    assert_eq!(n, 22);
    let mut times: VecDeque<u32> = (0..n as u32 + 1).collect();
    let steps = process_subpix(&mut times, &spans);
    assert!(times.is_empty());
    assert_eq!(steps.len(), n * 3 + 1);
    assert!(matches!(steps[0], SweepStep::WaitUntil(0)));
    assert_eq!(lines(&steps[1]), (0, Axis::X, vec![5]));
    assert_eq!(lines(&steps[2]), (1, Axis::X, vec![5, 13]));
    assert!(matches!(steps[3 * 11], SweepStep::WaitUntil(11)));
    assert_eq!(lines(&steps[3 * 11 + 1]), (0, Axis::Y, vec![15]));
    assert!(matches!(steps[3 * n], SweepStep::WaitUntil(22)));
}

#[test]
fn shorter_projectors_end_with_empty_frames() {
    let spans = rig(vec![vec![(0, 10, 20)], vec![(0, 10, 20), (1, 14, 24)]]).subpix_spans();
    let n = additional_pattern_count(&spans);
    assert_eq!(n, 30);
    let mut times: VecDeque<u32> = (100..100 + n as u32 + 3).collect();
    let steps = process_subpix(&mut times, &spans);
    assert_eq!(times, VecDeque::from(vec![131, 132]));
    assert_eq!(lines(&steps[3 * 22 + 1]), (0, Axis::Y, vec![]));
    assert_eq!(lines(&steps[3 * 29 + 2]), (1, Axis::Y, vec![29]));
}

#[test]
fn a_camera_finds_its_lines_where_its_entry_says() {
    let spans =
        rig(vec![vec![(0, 100, 50), (1, 300, 52), (2, 103, 400)], vec![(1, 5, 6)]]).subpix_spans();
    let n = additional_pattern_count(&spans);
    let mut times: VecDeque<u32> = (0..n as u32 + 1).collect();
    let steps = process_subpix(&mut times, &spans);
    let frame = |i: usize, p: usize| lines(&steps[i * (spans.len() + 1) + 1 + p]);
    for camera in 0..3usize {
        for (p, entry) in subpix_entries(&spans, camera).iter().enumerate() {
            if spans[p].0.get_span_by_tag(camera).is_none() {
                continue;
            }
            for x in entry.x_span.start..=entry.x_span.end {
                let (_, axis, values) = frame((x - entry.x_span.start) as usize, p);
                assert_eq!(axis, Axis::X);
                assert!(values.contains(&x));
            }
            for y in entry.y_span.start..=entry.y_span.end {
                let i = entry.y_starts_on + (y - entry.y_span.start) as usize;
                let (_, axis, values) = frame(i, p);
                assert_eq!(axis, Axis::Y);
                assert!(values.contains(&y));
            }
        }
    }
}

#[test]
fn the_pass_is_armed_with_one_time_per_frame_and_one_more() {
    let rig = rig(vec![vec![(0, 10, 20)]]);
    let spans = rig.subpix_spans();
    let (trips, times) =
        rig.trigger_cameras_subpix(&vec![Some(4), Some(6)], &spans, 500, 100).unwrap();
    assert_eq!(trips.longest, 6);
    assert_eq!(times.len(), 23);
    assert_eq!(times[0], 506);
    assert_eq!(times[22], 506 + 2200);
    let e = rig.trigger_cameras_subpix(&vec![None], &spans, 500, 100).unwrap_err();
    assert_eq!(e, CalibrationError::RttFailed);
}

#[test]
fn cameras_get_even_schedules() {
    let trips = RoundTrips { each: vec![10, 30], longest: 30 };
    assert_eq!(
        camera_timestamps_subpix(&trips, 0, 3, 500, 100, 7, 10),
        vec![618, 628, 638]
    );
}

#[test]
fn refinements_are_collected_by_projector() {
    let rig = rig(vec![vec![(0, 10, 20), (1, 30, 40)], vec![(1, 10, 20)]]);
    let spans = rig.subpix_spans();
    let at = |v: f64| Point2d {
        x: F64 { bits: v.to_bits() },
        y: F64 { bits: (v + 0.1).to_bits() },
    };
    let mut first = HashMap::new();
    first.insert(0u32, at(10.25));
    first.insert(1, at(99.0));
    first.insert(7, at(1.0));
    let mut second = HashMap::new();
    second.insert(1u32, at(11.5));
    let r = rig.calibrate_subpix(&spans, &vec![first, second]);
    assert_eq!(r.len(), 2);
    let rounded = |v: f64| Point2f {
        x: F32 { bits: (v as f32).to_bits() },
        y: F32 { bits: ((v + 0.1) as f32).to_bits() },
    };
    assert_eq!(r[0].len(), 1);
    assert_eq!(r[0][&0], rounded(10.25));
    assert_eq!(r[1].len(), 1);
    assert_eq!(r[1][&1], rounded(11.5));
}
