use embedded_camera_calibration::grid::grid;
use embedded_camera_calibration::types::Span;

#[test]
fn the_inner_number_runs_fastest() {
    let points = grid(Span { start: -1, end: 1 }, Span { start: 5, end: 6 });
    assert_eq!(points, vec![(-1, 5), (-1, 6), (0, 5), (0, 6), (1, 5), (1, 6)]);
}

#[test]
fn inverted_ranges_are_empty() {
    assert!(grid(Span { start: 1, end: 0 }, Span { start: 0, end: 3 }).is_empty());
    assert!(grid(Span { start: 0, end: 3 }, Span { start: 0, end: -1 }).is_empty());
    assert_eq!(
        grid(Span { start: i32::MAX, end: i32::MAX }, Span { start: i32::MIN, end: i32::MIN }),
        vec![(i32::MAX, i32::MIN)]
    );
}

#[test]
fn a_grid_holds_every_pair_once() {
    let points = grid(Span { start: -2, end: 3 }, Span { start: 4, end: 9 });
    assert_eq!(points.len(), 36);
    for a in -3..5 {
        for b in 3..11 {
            let times = points.iter().filter(|&&p| p == (a, b)).count();
            let inside = (-2..=3).contains(&a) && (4..=9).contains(&b);
            assert_eq!(times, usize::from(inside));
        }
    }
}
