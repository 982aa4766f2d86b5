use embedded_camera_calibration::calibration_evaluator::{
    aggregate_points, colorbar, data_bounds, evaluation_record, generate_object_points,
    save_camera_params_evaluation, EvaluationData,
};
use embedded_camera_calibration::float_bits::{F32, F64};
use embedded_camera_calibration::types::{Point2f, Size};

fn single(v: f32) -> F32 {
    F32 { bits: v.to_bits() }
}

fn point(x: f32, y: f32) -> Point2f {
    Point2f { x: single(x), y: single(y) }
}

fn matrix(v: f64) -> Vec<Vec<F64>> {
    vec![vec![F64 { bits: v.to_bits() }]]
}

fn metadata() -> serde_json::Value {
    let mut fields = serde_json::Map::new();
    fields.insert("elapsed_secs".to_string(), serde_json::Value::from(0.1 + 0.2));
    serde_json::Value::from(fields)
}

fn data(views: usize) -> EvaluationData<serde_json::Value> {
    EvaluationData {
        projector_id: 2,
        camera_matrix: matrix(1.5),
        dist_coeffs: matrix(0.25),
        rvecs: vec![matrix(1.0), matrix(2.0), matrix(3.0)],
        tvecs: vec![matrix(4.0), matrix(5.0), matrix(6.0)],
        measured_points: (0..views).map(|i| vec![point(i as f32, 0.0)]).collect(),
        additional_data_to_save: metadata(),
    }
}

#[test]
fn object_points_run_row_by_row() {
    assert_eq!(
        generate_object_points(Size { width: 3, height: 2 }),
        vec![(0, 0), (0, 1), (0, 2), (1, 0), (1, 1), (1, 2)]
    );
    assert_eq!(generate_object_points(Size { width: 12, height: 9 }).len(), 108);
    assert!(generate_object_points(Size { width: 0, height: 9 }).is_empty());
    assert!(generate_object_points(Size { width: 5, height: i32::MIN }).is_empty());
}

#[test]
fn the_index_of_an_object_point_is_that_of_its_corner() {
    let points = generate_object_points(Size { width: 7, height: 4 });
    for (k, (row, col)) in points.iter().enumerate() {
        assert_eq!((row * 7 + col) as usize, k);
    }
}

#[test]
fn every_view_has_a_plot_and_a_projector_a_dump() {
    let report = save_camera_params_evaluation(1, &data(3), "out/proposed");
    assert_eq!(report.heading, "# Projector 2");
    assert_eq!(report.json_path, "out/proposed/data1.json");
    assert_eq!(report.views.len(), 3);
    assert_eq!(report.views[2].svg_path, "out/proposed/projector2-2.svg");
    assert_eq!(report.views[2].png_path, "out/proposed/projector2-2.png");
    assert_eq!(
        report.views[1].caption,
        "Projected vs Measured (Projector 2 / State 1)"
    );
}

#[test]
fn views_need_rotation_translation_and_points() {
    assert_eq!(data(2).view_count(), 2);
    assert_eq!(data(9).view_count(), 3);
    let mut short = data(3);
    short.tvecs.pop();
    assert_eq!(short.view_count(), 2);
}

#[test]
fn the_dump_holds_the_projectors_own_views() {
    let mean = F64 { bits: 0.5f64.to_bits() };
    let rms = F64 { bits: 0.75f64.to_bits() };
    let record = evaluation_record(data(5), mean, rms);
    assert_eq!(record.measured_points.len(), 3);
    assert_eq!(record.measured_points[2], vec![point(2.0, 0.0)]);
    assert_eq!(record.camera_matrix, matrix(1.5));
    assert_eq!(record.dist_coeff, matrix(0.25));
    assert_eq!(record.rvecs.len(), 3);
    assert_eq!(record.tvecs[0], matrix(4.0));
    assert_eq!(record.mean_error, mean);
    assert_eq!(record.rms_error, rms);
    assert_eq!(record.additional_data, metadata());
}

#[test]
fn aggregates_keep_the_order_of_views() {
    let views = vec![vec![point(1.0, 1.0), point(2.0, 2.0)], vec![], vec![point(3.0, 3.0)]];
    assert_eq!(
        aggregate_points(&views),
        vec![point(1.0, 1.0), point(2.0, 2.0), point(3.0, 3.0)]
    );
}

#[test]
fn bounds_span_projected_and_measured_points() {
    let projected = vec![point(5.0, -1.0), point(f32::NAN, 9.0)];
    let measured = vec![point(6.5, 2.0), point(4.0, 8.0), point(1000.0, 1000.0)];
    let b = data_bounds(&projected, &measured);
    assert_eq!(b.min_x, single(4.0));
    assert_eq!(b.max_x, single(6.5));
    assert_eq!(b.min_y, single(-1.0));
    assert_eq!(b.max_y, single(9.0));
}

#[test]
fn bounds_of_nothing_are_inverted() {
    let b = data_bounds(&vec![], &vec![]);
    assert_eq!(b.min_x, single(f32::MAX));
    assert_eq!(b.max_x, single(f32::MIN));
    assert_eq!(b.min_y, single(f32::MAX));
    assert_eq!(b.max_y, single(f32::MIN));
}

#[test]
fn the_color_bar_has_no_gap() {
    let steps = colorbar();
    assert_eq!(steps.len(), 100);
    assert_eq!(steps[0], (0, 2));
    assert_eq!(steps[1], (1, 4));
    assert_eq!(steps[99], (197, 200));
    for pair in steps.windows(2) {
        assert!(pair[1].0 < pair[0].1);
    }
}

#[test]
fn plots_of_different_views_have_different_paths() {
    let report = save_camera_params_evaluation(0, &data(3), "out");
    assert_ne!(report.views[0].svg_path, report.views[1].svg_path);
    assert_ne!(report.views[1].png_path, report.views[2].png_path);
}

#[test]
fn evaluations_can_be_copied() {
    let original = data(3);
    let copy = original.clone();
    assert_eq!(copy.projector_id, original.projector_id);
    assert_eq!(copy.measured_points, original.measured_points);
    assert_eq!(copy.additional_data_to_save, original.additional_data_to_save);
}
