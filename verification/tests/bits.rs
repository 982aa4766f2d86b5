use embedded_camera_calibration::bits::bit_length;

#[test]
fn bit_length_counts_binary_digits() {
    for (n, digits) in [(0u64, 0u32), (1, 1), (2, 2), (3, 2), (800, 10), (1280, 11), (u64::MAX, 64)] {
        assert_eq!(bit_length(n), digits);
        assert_eq!(bit_length(n), 64 - n.leading_zeros());
    }
}
