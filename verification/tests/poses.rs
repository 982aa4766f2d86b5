use embedded_camera_calibration::content_projection::Correspondences;
use embedded_camera_calibration::external_calibrator::ExternalError;
use embedded_camera_calibration::float_bits::F32;
use embedded_camera_calibration::poses::{
    after_camera_wait, needs_more, next_pose_prompt, pose_points, pose_succeeded,
    repeats_detection, CameraWait, ConventionalProposed, Method, PointsPair,
};
use embedded_camera_calibration::types::{Point2f, Point3f};

fn point(x: f32, y: f32) -> Point2f {
    Point2f { x: F32 { bits: x.to_bits() }, y: F32 { bits: y.to_bits() } }
}

fn pose(n: usize) -> PointsPair {
    PointsPair { points_in_world: vec![], points_in_projector: vec![point(n as f32, 0.0); n] }
}

fn collected(poses: usize) -> ConventionalProposed {
    let mut data = ConventionalProposed::new();
    for _ in 0..poses {
        data.push(pose(108), pose(4), pose(5));
    }
    data
}

#[test]
fn methods_stay_in_lockstep() {
    let data = collected(3);
    assert_eq!(data.len(), 3);
    for method in Method::all() {
        assert_eq!(data.of(method).len(), 3);
    }
    assert_eq!(data.of(Method::Conventional)[2].points_in_projector.len(), 108);
    assert_eq!(data.of(Method::Proposed)[0].points_in_projector.len(), 4);
    assert_eq!(data.of(Method::ProposedUnfixed)[1].points_in_projector.len(), 5);
}

#[test]
fn eight_poses_are_collected_for_every_projector() {
    assert!(needs_more(&vec![collected(8), collected(7)]));
    assert!(!needs_more(&vec![collected(8), collected(9)]));
    assert!(!needs_more(&vec![]));
}

#[test]
fn the_prompt_counts_poses() {
    assert_eq!(
        next_pose_prompt(&vec![collected(0), collected(2), collected(1)]),
        "# Next { 0, 2, 1 }: "
    );
    assert_eq!(next_pose_prompt(&vec![]), "# Next {  }: ");
    assert_eq!(next_pose_prompt(&vec![collected(11)]), "# Next { 11 }: ");
}

#[test]
fn a_pose_takes_four_cameras() {
    assert!(!pose_succeeded(3));
    assert!(pose_succeeded(4));
}

#[test]
fn board_points_lie_in_the_plane() {
    let r = pose_points(Correspondences {
        from: vec![point(1.0, 2.0)],
        to: vec![point(3.0, 4.0)],
    });
    assert_eq!(
        r.points_in_world,
        vec![Point3f {
            x: F32 { bits: 1.0f32.to_bits() },
            y: F32 { bits: 2.0f32.to_bits() },
            z: F32 { bits: 0.0f32.to_bits() },
        }]
    );
    assert_eq!(r.points_in_projector, vec![point(3.0, 4.0)]);
}

#[test]
fn methods_have_their_settings() {
    assert_eq!(
        Method::all(),
        vec![Method::Conventional, Method::Proposed, Method::ProposedUnfixed]
    );
    assert!(!Method::Conventional.fixes_distortion());
    assert!(Method::Proposed.fixes_distortion());
    assert!(Method::ProposedUnfixed.fixes_distortion());
    let directories: Vec<&str> = Method::all().iter().map(|m| m.directory()).collect();
    assert_eq!(directories, vec!["conventional", "proposed", "proposed_unfixed"]);
}

#[test]
fn waiting_for_the_camera_can_be_cancelled() {
    assert_eq!(after_camera_wait(true, 'q' as i32), Ok(CameraWait::Ready));
    assert_eq!(after_camera_wait(false, -1), Ok(CameraWait::Again));
    assert_eq!(after_camera_wait(false, 'q' as i32), Err(ExternalError::WaitCancelled));
    assert!(repeats_detection('n' as i32));
    assert!(!repeats_detection('q' as i32));
}
