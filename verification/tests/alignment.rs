use embedded_camera_calibration::alignment::{
    condition_steps, single_steps, AlignmentStep, Condition, Content,
};
use embedded_camera_calibration::debug_viz::Color;
use embedded_camera_calibration::external_camera::Scene;

fn show(projector: usize, content: Content) -> AlignmentStep {
    AlignmentStep::Show { projector, content }
}

fn captures(steps: &[AlignmentStep]) -> usize {
    steps.iter().filter(|s| **s == AlignmentStep::Capture).count()
}

#[test]
fn conditions_are_captured_in_order() {
    let names: Vec<&str> = Condition::all().iter().map(|c| c.name()).collect();
    assert_eq!(names, vec!["Conventional", "Proposed", "ProposedUncorrected"]);
}

#[test]
fn a_condition_is_captured_with_all_projectors() {
    assert_eq!(
        condition_steps(2, 1),
        vec![
            AlignmentStep::Expose(Scene::Alignment.exposure()),
            show(0, Content::Black),
            show(1, Content::Black),
            AlignmentStep::Capture,
            show(0, Content::Checkerboard(Color { blue: 0, green: 0, red: 255 })),
            show(1, Content::Checkerboard(Color { blue: 0, green: 255, red: 0 })),
            AlignmentStep::Capture,
            AlignmentStep::Expose(Scene::Target.exposure()),
            show(0, Content::Usaf1951),
            show(1, Content::Usaf1951),
            AlignmentStep::Capture,
            show(0, Content::Wave(0)),
            show(1, Content::Wave(0)),
            AlignmentStep::Capture,
        ]
    );
}

#[test]
fn a_single_projector_is_captured_alone() {
    assert_eq!(
        single_steps(1, 3, 1),
        vec![
            AlignmentStep::Blank(0),
            AlignmentStep::Blank(2),
            AlignmentStep::Expose(Scene::Alignment.exposure()),
            show(1, Content::Black),
            AlignmentStep::Capture,
            show(1, Content::Checkerboard(Color { blue: 255, green: 255, red: 255 })),
            AlignmentStep::Capture,
            AlignmentStep::Expose(Scene::Target.exposure()),
            show(1, Content::Usaf1951),
            AlignmentStep::Capture,
            show(1, Content::Wave(0)),
            AlignmentStep::Capture,
        ]
    );
}

#[test]
fn every_sequence_gives_the_same_number_of_frames() {
    for waves in 0..5 {
        assert_eq!(captures(&condition_steps(2, waves)), 3 + waves);
        assert_eq!(captures(&single_steps(0, 2, waves)), 3 + waves);
    }
}
