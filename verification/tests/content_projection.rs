use std::collections::{BTreeMap, HashMap};

use embedded_camera_calibration::content_projection::{
    camera_queries, checkered_content, mesh_correspondences, nominal_correspondences,
    pyramid_levels, refined_queries, write_to_canvas,
    CanvasLayout,
};
use embedded_camera_calibration::float_bits::{F32, F64};
use embedded_camera_calibration::types::{
    CalibrationResultEntry, CameraResult, Point2f, Point2i, Rect, Size,
};

fn point(x: f32, y: f32) -> Point2f {
    Point2f { x: F32 { bits: x.to_bits() }, y: F32 { bits: y.to_bits() } }
}

#[test]
fn the_default_layout_is_the_prototype_board() {
    let layout = CanvasLayout::default();
    assert_eq!((layout.width_mm, layout.height_mm), (220, 160));
    assert_eq!(layout.content_x_start_mm, 20);
    assert_eq!(layout.content_x_end_mm, 200);
    assert_eq!(layout.content_y_start_mm, 0);
    assert_eq!(layout.content_width_mm(), 180);
    assert_eq!(layout.target_width(8), 1440);
}

#[test]
fn content_takes_the_whole_content_width() {
    let placed = write_to_canvas(&CanvasLayout::default(), 8, 900);
    assert_eq!(placed.canvas, Size { width: 1760, height: 1280 });
    assert_eq!(placed.region, Rect { x: 160, y: 0, width: 1440, height: 900 });
    assert_eq!(placed.kept, Rect { x: 0, y: 0, width: 1440, height: 900 });
}

#[test]
fn content_is_cropped_at_the_bottom() {
    let layout = CanvasLayout { content_y_start_mm: 10, ..CanvasLayout::default() };
    let placed = write_to_canvas(&layout, 8, 5000);
    assert_eq!(placed.region, Rect { x: 160, y: 80, width: 1440, height: 1200 });
    assert_eq!(placed.kept, Rect { x: 0, y: 0, width: 1440, height: 1200 });
    assert_eq!(placed.region.y + placed.region.height, placed.canvas.height);
}

fn halvings(target: f64) -> usize {
    let mut n = 0;
    let mut scale = 1.0;
    while scale * 0.5 > target {
        scale *= 0.5;
        n += 1;
    }
    n
}

#[test]
fn levels_keep_the_scale_above_the_target() {
    for target in [
        0.0,
        -0.0,
        5e-324,
        1e-323,
        1e-310,
        2.2250738585072014e-308,
        1e-12,
        0.0624,
        0.0625,
        0.0626,
        0.124999,
        0.125,
        0.3,
        0.49999,
        0.5,
        0.7,
        1.0,
        17.0,
        f64::MAX,
        f64::INFINITY,
        f64::NAN,
    ] {
        assert_eq!(pyramid_levels(F64 { bits: target.to_bits() }), halvings(target), "{target}");
    }
    assert_eq!(pyramid_levels(F64 { bits: 0 }), 1074);
    assert_eq!(pyramid_levels(F64 { bits: 0.2f64.to_bits() }), 2);
}

#[test]
fn smaller_targets_take_more_levels() {
    let levels: Vec<usize> = [0.9, 0.4, 0.2, 0.05, 0.001]
        .iter()
        .map(|v: &f64| pyramid_levels(F64 { bits: v.to_bits() }))
        .collect();
    assert_eq!(levels, vec![0, 1, 2, 4, 9]);
}

#[test]
fn queries_are_listed_by_camera() {
    let mut cameras = BTreeMap::new();
    for id in [3usize, 0, 2] {
        cameras.insert(
            id,
            CameraResult {
                camera_position_in_projector: Point2i { x: 0, y: 0 },
                projector_position_in_camera: Point2i { x: id as i32, y: 7 },
            },
        );
    }
    let entry = CalibrationResultEntry { cameras };
    assert_eq!(
        camera_queries(&entry),
        vec![(0, point(0.0, 7.0)), (2, point(2.0, 7.0)), (3, point(3.0, 7.0))]
    );
    let refined = HashMap::from([(3, point(1.0, 1.0)), (0, point(1.0, 2.0)), (9, point(0.0, 0.0))]);
    assert_eq!(
        refined_queries(&entry, &refined),
        vec![(0, point(0.0, 7.0)), (3, point(3.0, 7.0))]
    );
    assert!(refined_queries(&entry, &HashMap::new()).is_empty());
}

#[test]
fn refined_positions_are_paired_with_their_places() {
    let mut worlds = HashMap::new();
    let mut refined = HashMap::new();
    for id in 0..6usize {
        worlds.insert(id, point(id as f32, 0.5));
        if id != 4 {
            refined.insert(id, point(id as f32 * 100.0, 7.0));
        }
    }
    let c = mesh_correspondences(&worlds, &refined);
    assert_eq!(c.from.len(), 5);
    assert_eq!(c.to.len(), 5);
    for (from, to) in c.from.iter().zip(c.to.iter()) {
        let id = f32::from_bits(from.x.bits);
        assert_eq!(*to, point(id * 100.0, 7.0));
    }
}

#[test]
fn refined_positions_are_paired_with_nominal_places() {
    let places = vec![point(0.0, 1.0), point(1.0, 1.0), point(2.0, 1.0)];
    let mut refined = HashMap::new();
    refined.insert(2usize, point(200.0, 0.0));
    refined.insert(0, point(0.0, 0.0));
    let c = nominal_correspondences(&places, &refined);
    assert_eq!(c.from.len(), 2);
    for (from, to) in c.from.iter().zip(c.to.iter()) {
        let id = f32::from_bits(from.x.bits);
        assert_eq!(*to, point(id * 100.0, 0.0));
    }
}

#[test]
fn checkerboards_fill_the_content_region() {
    let layout = CanvasLayout {
        width_mm: 10,
        height_mm: 4,
        content_x_start_mm: 1,
        content_x_end_mm: 7,
        content_y_start_mm: 0,
    };
    let (size, squares) = checkered_content(&layout, 10, 20);
    assert_eq!(size, Size { width: 60, height: 40 });
    let square = |x, y| Rect { x, y, width: 20, height: 20 };
    assert_eq!(squares, vec![square(0, 0), square(20, 20), square(40, 0)]);
    assert!(checkered_content(&layout, 10, -20).1.is_empty());
}
