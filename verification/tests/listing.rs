use std::collections::{BTreeMap, HashMap};

use embedded_camera_calibration::listing::{hashed_entries, ordered_entries, put};
use embedded_camera_calibration::types::{CameraResult, Point2i};

fn result(n: i32) -> CameraResult {
    CameraResult {
        camera_position_in_projector: Point2i { x: n, y: 0 },
        projector_position_in_camera: Point2i { x: 0, y: n },
    }
}

#[test]
fn ordered_maps_are_listed_in_ascending_order() {
    let mut m = BTreeMap::new();
    for id in [9usize, 2, 5] {
        put(&mut m, id, result(id as i32));
    }
    put(&mut m, 2, result(7));
    assert_eq!(
        ordered_entries(&m),
        vec![(2, result(7)), (5, result(5)), (9, result(9))]
    );
}

#[test]
fn hash_maps_are_listed_completely() {
    let mut m = HashMap::new();
    for id in 0..20usize {
        m.insert(id, id * id);
    }
    let mut entries = hashed_entries(&m);
    entries.sort();
    let expected: Vec<(usize, usize)> = (0..20).map(|id| (id, id * id)).collect();
    assert_eq!(entries, expected);
}
