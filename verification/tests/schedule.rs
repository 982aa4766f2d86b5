use embedded_camera_calibration::schedule::{
    camera_start_delay, gather_round_trips, generate_timestamps, generate_timestamps_subpix,
    wait_delay,
};

#[test]
fn a_run_has_a_gap_for_the_area_calculation() {
    assert_eq!(
        generate_timestamps(1, 1, 0, 500, 100, 250, false),
        vec![500, 600, 850, 950, 1050, 1150]
    );
}

#[test]
fn the_host_has_one_more_frame() {
    assert_eq!(
        generate_timestamps(1, 0, 0, 0, 10, 10, true),
        vec![0, 10, 20, 30, 40]
    );
    assert_eq!(generate_timestamps(0, 0, 0, 3, 1, 1, false), vec![3, 4]);
}

#[test]
fn frames_are_spaced_by_interval_and_area() {
    let t = generate_timestamps(2, 11, 10, 620, 800, 1100, true);
    assert_eq!(t.len(), 2 + 2 * 23 + 1);
    for i in 0..t.len() - 1 {
        assert_eq!(t[i + 1] - t[i], if i == 1 { 1100 } else { 800 });
    }
}

#[test]
fn cameras_keep_a_constant_distance_to_the_host() {
    let host = generate_timestamps(2, 4, 3, 620, 800, 1100, true);
    let camera = generate_timestamps(2, 4, 3, 1350, 800, 1100, false);
    assert_eq!(host.len(), camera.len() + 1);
    for i in 0..camera.len() {
        assert_eq!(camera[i] - host[i], 730);
    }
}

#[test]
fn the_subpixel_schedule_is_even() {
    assert_eq!(generate_timestamps_subpix(4, 7, 5), vec![7, 12, 17, 22]);
    assert!(generate_timestamps_subpix(0, 7, 5).is_empty());
}

#[test]
fn round_trips_need_every_camera() {
    let trips = gather_round_trips(&vec![Some(4), Some(9), Some(2)]).unwrap();
    assert_eq!(trips.each, vec![4, 9, 2]);
    assert_eq!(trips.longest, 9);
    assert!(gather_round_trips(&vec![Some(4), None]).is_none());
}

#[test]
fn cameras_start_by_their_own_clock() {
    assert_eq!(camera_start_delay(20, 500, 800, 11, 3), 20 + 500 + 800 - 5 - 3);
    assert_eq!(camera_start_delay(0, 1, 0, 0, (1u128 << 32) + 1), 0);
}

#[test]
fn any_two_cameras_sample_a_frame_at_one_moment() {
    let host = generate_timestamps(2, 4, 3, 20 + 500, 800, 1100, true);
    for (rtt, gone) in [(20, 0), (11, 3), (0, 77), (7, (1u128 << 32) + 5)] {
        let first = camera_start_delay(20, 500, 730, rtt, gone);
        let camera = generate_timestamps(2, 4, 3, first, 800, 1100, false);
        assert_eq!(camera.len() + 1, host.len());
        for i in 0..camera.len() {
            assert_eq!(camera[i] + rtt / 2 + gone as u32, host[i] + 730);
        }
    }
}

#[test]
fn any_two_cameras_sample_a_line_at_one_moment() {
    let host = generate_timestamps_subpix(5, 20 + 500, 800);
    for (rtt, gone) in [(20, 0), (11, 3), (0, 77)] {
        let first = camera_start_delay(20, 500, 730, rtt, gone);
        let camera = generate_timestamps_subpix(5, first, 800);
        for i in 0..5 {
            assert_eq!(camera[i] + rtt / 2 + gone as u32, host[i] + 730);
        }
    }
}

#[test]
fn waits_count_from_the_start() {
    assert_eq!(wait_delay(1500, 1200), 300);
    assert_eq!(wait_delay(1500, 1499), 1);
    assert_eq!(wait_delay(i32::MAX as u32, 0), i32::MAX);
}

#[test]
fn a_time_that_is_over_is_not_waited_for() {
    assert_eq!(wait_delay(1200, 1500), 1);
    assert_eq!(wait_delay(1200, 1200), 1);
    assert_eq!(wait_delay(0, 0), 1);
    assert_eq!(wait_delay(1200, 1u128 << 32), 1);
    assert_eq!(wait_delay(1200, u128::MAX), 1);
}

#[test]
fn a_wait_has_a_longest_length() {
    assert_eq!(wait_delay(u32::MAX, 0), i32::MAX);
    assert_eq!(wait_delay(1 << 31, 0), i32::MAX);
    assert_eq!(wait_delay(1 << 31, 1), i32::MAX);
    assert_eq!(wait_delay(1 << 31, 2), i32::MAX - 1);
}
