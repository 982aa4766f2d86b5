use std::collections::{BTreeMap, HashMap};

use embedded_camera_calibration::camera_mesh::{
    add_point_pairs, camera_label, ends_session, join_refined, load_camera_mesh_homographies,
    positions_in_projector, ProjectorImageResult,
};
use embedded_camera_calibration::float_bits::F32;
use embedded_camera_calibration::types::{
    CalibrationResultEntry, CameraMeshPointPair, CameraResult, Point2f, Point2i,
};

fn point(x: f32, y: f32) -> Point2f {
    Point2f { x: F32 { bits: x.to_bits() }, y: F32 { bits: y.to_bits() } }
}

fn pair(n: i32) -> CameraMeshPointPair {
    CameraMeshPointPair {
        projector_position_in_embedded_camera: Point2i { x: n, y: n },
        effective_camera_position_in_world: point(n as f32, 0.0),
    }
}

fn image(n: i32) -> ProjectorImageResult {
    ProjectorImageResult {
        projector_position_in_embedded_camera: Point2i { x: n, y: n },
        embedded_camera_position_in_projector: point(n as f32, 1.0),
    }
}

#[test]
fn every_camera_is_fitted_to_its_pairs() {
    let mut mesh = HashMap::new();
    mesh.insert(3usize, vec![pair(1), pair(2)]);
    mesh.insert(0, vec![pair(5)]);
    let mut fits = load_camera_mesh_homographies(&mesh);
    fits.sort_by_key(|f| f.camera);
    assert_eq!(fits.len(), 2);
    assert_eq!(fits[0].camera, 0);
    assert_eq!(fits[1].camera, 3);
    assert_eq!(fits[1].camera_points, vec![point(1.0, 1.0), point(2.0, 2.0)]);
    assert_eq!(fits[1].world_points, vec![point(1.0, 0.0), point(2.0, 0.0)]);
}

#[test]
fn only_refined_cameras_are_joined() {
    let mut cameras = BTreeMap::new();
    for id in 0..3usize {
        cameras.insert(
            id,
            CameraResult {
                camera_position_in_projector: Point2i { x: -1, y: -1 },
                projector_position_in_camera: Point2i { x: id as i32, y: id as i32 },
            },
        );
    }
    let mut refined = HashMap::new();
    refined.insert(1usize, point(1.0, 1.0));
    refined.insert(7, point(7.0, 7.0));
    let joined = join_refined(&CalibrationResultEntry { cameras }, &refined);
    assert_eq!(joined.len(), 1);
    assert_eq!(joined[&1], image(1));
    let positions = positions_in_projector(&joined);
    assert_eq!(positions.len(), 1);
    assert_eq!(positions[&1], point(1.0, 1.0));
}

#[test]
fn captures_only_add_to_the_mesh() {
    let mut mesh = HashMap::new();
    mesh.insert(0usize, vec![pair(9)]);
    mesh.insert(5, vec![pair(8)]);
    let mut images = HashMap::new();
    let mut worlds = HashMap::new();
    for id in 0..2usize {
        images.insert(id, image(id as i32));
        worlds.insert(id, point(id as f32, 0.0));
    }
    images.insert(2, image(2));
    add_point_pairs(&mut mesh, &images, &worlds);
    assert_eq!(mesh.len(), 3);
    assert_eq!(mesh[&0], vec![pair(9), pair(0)]);
    assert_eq!(mesh[&1], vec![pair(1)]);
    assert_eq!(mesh[&5], vec![pair(8)]);
}

#[test]
fn cameras_are_labelled() {
    assert_eq!(camera_label(3), "Camera 3");
}

#[test]
fn the_operator_ends_the_session() {
    assert!(ends_session('q' as i32));
    assert!(!ends_session(-1));
}
