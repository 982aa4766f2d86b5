use embedded_camera_calibration::text::{join_path, push_decimal};

#[test]
fn numbers_are_written_in_decimal() {
    for n in [0u64, 7, 10, 42, 99, 100, 1234567890, u64::MAX] {
        let mut s = String::from("n=");
        push_decimal(&mut s, n);
        assert_eq!(s, format!("n={n}"));
    }
}

#[test]
fn paths_get_one_separator() {
    assert_eq!(join_path(".res", "x"), ".res/x");
    assert_eq!(join_path(".res/", "x"), ".res/x");
    assert_eq!(join_path("", "x"), "x");
    assert_eq!(join_path("/", "x"), "/x");
    for (base, leaf) in [("a/b", "c"), ("a/", "c"), ("", "c"), ("/", "c")] {
        let expected = std::path::PathBuf::from(base).join(leaf);
        assert_eq!(join_path(base, leaf), expected.to_str().unwrap());
    }
}
