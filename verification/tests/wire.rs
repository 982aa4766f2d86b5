use embedded_camera_calibration::wire::{
    push_all, push_bytes, push_i32, push_u32, read_u32, read_u64,
};

#[test]
fn numbers_go_most_significant_byte_first() {
    let mut data = vec![];
    push_u32(&mut data, 0x0102_0304);
    push_i32(&mut data, -2);
    assert_eq!(data, vec![1, 2, 3, 4, 255, 255, 255, 254]);
}

#[test]
fn numbers_read_back_as_written() {
    let mut data = vec![9];
    for v in [0u32, 1, 0x8000_0000, u32::MAX, 0xdead_beef] {
        push_u32(&mut data, v);
    }
    assert_eq!(read_u32(&data, 1), 0);
    assert_eq!(read_u32(&data, 5), 1);
    assert_eq!(read_u32(&data, 9), 0x8000_0000);
    assert_eq!(read_u32(&data, 13), u32::MAX);
    assert_eq!(read_u32(&data, 17), 0xdead_beef);
    assert_eq!(read_u64(&data, 13), 0xffff_ffff_dead_beef);
}

#[test]
fn signed_numbers_read_back_as_written() {
    for v in [0i32, -1, 5, i32::MIN, i32::MAX] {
        let mut data = vec![];
        push_i32(&mut data, v);
        assert_eq!(read_u32(&data, 0) as i32, v);
        assert_eq!(data, v.to_be_bytes());
    }
}

#[test]
fn lists_and_bytes_are_appended() {
    let mut data = vec![7];
    push_all(&mut data, &vec![1, 256]);
    push_bytes(&mut data, &[3, 4]);
    assert_eq!(data, vec![7, 0, 0, 0, 1, 0, 0, 1, 0, 3, 4]);
}
