use embedded_camera_calibration::coordinate_spans::{build_coordinate_spans, CoordinateSpans};
use embedded_camera_calibration::types::Span;

fn span(start: i32, end: i32) -> Span {
    Span { start, end }
}

#[test]
fn nothing_clusters_to_nothing() {
    let r = build_coordinate_spans(5, vec![]);
    assert!(r.spans.is_empty());
    assert!(r.tag_groups.is_empty());
    assert_eq!(r.max_len(), 0);
    assert!(r.rotate().is_empty());
    assert!(r.is_well_formed());
}

#[test]
fn near_values_share_a_padded_range() {
    let r = build_coordinate_spans(5, vec![(100, 2), (10, 0), (15, 1), (106, 3)]);
    assert_eq!(r.spans, vec![span(5, 20), span(95, 105), span(101, 111)]);
    assert_eq!(r.tag_groups, vec![vec![0, 1], vec![2], vec![3]]);
    assert!(r.is_well_formed());
}

#[test]
fn values_exactly_the_padding_apart_are_joined() {
    let r = build_coordinate_spans(5, vec![(0, 0), (5, 1), (10, 2)]);
    assert_eq!(r.spans, vec![span(-5, 15)]);
    let r = build_coordinate_spans(5, vec![(0, 0), (6, 1)]);
    assert_eq!(r.spans, vec![span(-5, 5), span(1, 11)]);
}

#[test]
fn ranges_surround_their_values_and_every_tag_has_one() {
    let pairs = vec![(640, 3), (12, 7), (640, 1), (651, 0), (13, 9)];
    let r = build_coordinate_spans(5, pairs.clone());
    for (value, tag) in pairs {
        let s = r.get_span_by_tag(tag).unwrap();
        assert!(s.start <= value - 5 && value + 5 <= s.end);
    }
    assert!(r.get_span_by_tag(2).is_none());
}

#[test]
fn clusters_stand_apart_in_ascending_order() {
    let r = build_coordinate_spans(5, vec![(30, 0), (10, 1), (20, 2), (16, 3)]);
    for pair in r.spans.windows(2) {
        assert!((pair[1].start + 5) - (pair[0].end - 5) > 5);
    }
    assert_eq!(r.spans.len(), r.tag_groups.len());
}

#[test]
fn rotate_takes_the_same_element_of_every_range() {
    let r = CoordinateSpans {
        spans: vec![span(1, 3), span(5, 6)],
        tag_groups: vec![vec![0], vec![1]],
    };
    assert_eq!(r.rotate(), vec![vec![1, 5], vec![2, 6], vec![3]]);
    assert_eq!(r.max_len(), 3);
    assert_eq!(r.get_values_at(1), vec![Some(2), Some(6)]);
    assert_eq!(r.get_values_at(2), vec![Some(3), None]);
    assert_eq!(r.scan_line_at(2), vec![3]);
    assert_eq!(r.scan_line_at(9), Vec::<i32>::new());
}

#[test]
fn the_sweep_lights_every_coordinate_once_and_nothing_else() {
    let r = build_coordinate_spans(5, vec![(50, 0), (80, 1), (83, 2)]);
    let lines = r.rotate();
    let mut lit: Vec<i32> = lines.iter().flatten().copied().collect();
    lit.sort();
    let mut expected: Vec<i32> = r.spans.iter().flat_map(|s| s.start..=s.end).collect();
    expected.sort();
    assert_eq!(lit, expected);
}

#[test]
fn ranges_that_do_not_fit_are_told() {
    let wide = CoordinateSpans { spans: vec![span(i32::MIN, i32::MAX)], tag_groups: vec![vec![0]] };
    assert!(!wide.is_well_formed());
    let inverted = CoordinateSpans { spans: vec![span(1, 0)], tag_groups: vec![vec![0]] };
    assert!(!inverted.is_well_formed());
    let lonely = CoordinateSpans { spans: vec![span(1, 2)], tag_groups: vec![] };
    assert!(!lonely.is_well_formed());
}

#[test]
fn the_order_of_the_pairs_does_not_matter() {
    let pairs = vec![(640, 3), (12, 7), (640, 1), (643, 0), (13, 9), (640, 3), (-8, 2)];
    let expected = build_coordinate_spans(5, pairs.clone());
    for turn in 0..pairs.len() {
        let mut other = pairs.clone();
        other.rotate_left(turn);
        other.swap(0, 4);
        let r = build_coordinate_spans(5, other);
        assert_eq!(r.spans, expected.spans);
        assert_eq!(r.tag_groups.len(), expected.tag_groups.len());
        for (a, b) in r.tag_groups.iter().zip(&expected.tag_groups) {
            let (mut a, mut b) = (a.clone(), b.clone());
            a.sort();
            b.sort();
            assert_eq!(a, b);
        }
        for tag in 0..10 {
            assert_eq!(r.get_span_by_tag(tag), expected.get_span_by_tag(tag));
        }
    }
}

#[test]
fn tags_are_looked_up_in_ranges_of_any_length() {
    let odd = CoordinateSpans {
        spans: vec![span(i32::MIN, i32::MAX), span(1, 0), span(4, 5)],
        tag_groups: vec![vec![0], vec![1, 2]],
    };
    assert_eq!(odd.get_span_by_tag(0), Some(span(i32::MIN, i32::MAX)));
    assert_eq!(odd.get_span_by_tag(2), Some(span(1, 0)));
    assert_eq!(odd.get_span_by_tag(3), None);
}

#[test]
fn a_negative_padding_joins_nothing() {
    let r = build_coordinate_spans(-2, vec![(7, 1), (3, 0), (7, 2)]);
    assert_eq!(r.spans, vec![span(5, 1), span(9, 5), span(9, 5)]);
    assert_eq!(r.tag_groups[0], vec![0]);
    assert_eq!(r.tag_groups.len(), 3);
}
