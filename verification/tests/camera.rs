use embedded_camera_calibration::camera::{
    accept, data_reply, data_subpix_reply, decode_data, decode_data_subpix, decode_response, frame,
    frame_length, init_arguments, init_subpix_arguments, request, CameraError, Command, Response,
    RttProbe, SubpixEntry,
};
use embedded_camera_calibration::float_bits::F64;
use embedded_camera_calibration::types::{CameraResult, Point2d, Point2i, Span};

fn words(values: &[u32]) -> Vec<u8> {
    let mut data = vec![];
    for v in values {
        data.extend(v.to_be_bytes());
    }
    data
}

fn reply(status: &[u8], data: &[u8]) -> Vec<u8> {
    let mut raw = (status.len() as u32).to_be_bytes().to_vec();
    raw.extend(status);
    raw.extend(data);
    raw
}

fn subpix(id: u32, x: f64, y: f64) -> Vec<u8> {
    let mut data = id.to_be_bytes().to_vec();
    data.extend(x.to_be_bytes());
    data.extend(y.to_be_bytes());
    data
}

#[test]
fn frames_carry_their_length() {
    assert_eq!(frame(&[]), vec![0, 0, 0, 0]);
    assert_eq!(frame(&[5, 6]), vec![0, 0, 0, 2, 5, 6]);
    assert_eq!(frame_length([0, 0, 1, 2]), 258);
}

#[test]
fn requests_carry_command_and_arguments() {
    assert_eq!(
        request(Command::Rtt, &[]),
        vec![0, 0, 0, 7, 0, 0, 0, 3, b'R', b'T', b'T']
    );
    assert_eq!(
        request(Command::Data, &[9]),
        vec![0, 0, 0, 9, 0, 0, 0, 4, b'D', b'A', b'T', b'A', 9]
    );
}

#[test]
fn commands_have_their_names() {
    let names: Vec<&str> = [
        Command::Rtt,
        Command::Init,
        Command::Data,
        Command::Capture,
        Command::InitSubpix,
        Command::DataSubpix,
    ]
    .iter()
    .map(|c| c.name())
    .collect();
    assert_eq!(names, vec!["RTT", "INIT", "DATA", "CAPTURE", "INIT_SUBPIX", "DATA_SUBPIX"]);
}

#[test]
fn a_request_payload_reads_back_like_a_response() {
    let sent = request(Command::InitSubpix, &[1, 2, 3]);
    let n = frame_length([sent[0], sent[1], sent[2], sent[3]]) as usize;
    assert_eq!(sent.len(), n + 4);
    let back = decode_response(&sent[4..]).unwrap();
    assert_eq!(back.status, "INIT_SUBPIX");
    assert_eq!(back.data, vec![1, 2, 3]);
}

#[test]
fn init_sends_counts_then_timestamps() {
    assert_eq!(init_arguments(2, 11, 10, &vec![500, 1300]), words(&[2, 11, 10, 500, 1300]));
}

#[test]
fn init_subpix_sends_spans_then_timestamps() {
    let entries = vec![
        SubpixEntry {
            x_span: Span { start: -5, end: 5 },
            y_span: Span { start: 10, end: 20 },
            y_starts_on: 11,
        },
        SubpixEntry {
            x_span: Span { start: 0, end: 0 },
            y_span: Span { start: 0, end: 0 },
            y_starts_on: 0,
        },
    ];
    assert_eq!(
        init_subpix_arguments(&entries, &vec![7, 8, 9]),
        words(&[2, -5i32 as u32, 5, 10, 20, 11, 0, 0, 0, 0, 0, 3, 7, 8, 9])
    );
}

#[test]
fn responses_are_taken_apart() {
    let r = decode_response(&reply(b"OK", &[1, 2])).unwrap();
    assert_eq!(r.status, "OK");
    assert_eq!(r.data, vec![1, 2]);
    assert!(r.validate_ok().is_ok());
    let empty = decode_response(&reply(b"", &[])).unwrap();
    assert_eq!(empty.status, "");
    assert!(empty.data.is_empty());
}

#[test]
fn short_responses_are_refused() {
    let e = decode_response(&[0, 0, 0]).unwrap_err();
    assert!(matches!(e, CameraError::ShortResponse));
    assert_eq!(e.message(), "response shorter than the 4-byte status length header");
}

#[test]
fn truncated_responses_are_refused() {
    let e = decode_response(&[0, 0, 0, 10, b'O', b'K']).unwrap_err();
    assert!(matches!(e, CameraError::Truncated { status_len: 10, available: 2 }));
    assert_eq!(
        e.message(),
        "response truncated: status length 10 exceeds the 2 payload bytes"
    );
    let huge = decode_response(&[255, 255, 255, 255]).unwrap_err();
    assert_eq!(
        huge.message(),
        "response truncated: status length 4294967295 exceeds the 0 payload bytes"
    );
}

#[test]
fn statuses_that_are_not_text_are_refused() {
    let e = decode_response(&reply(&[0xff], &[])).unwrap_err();
    assert!(matches!(e, CameraError::StatusNotText { .. }));
    assert_eq!(e.message(), "invalid utf-8 sequence of 1 bytes from index 0");
    assert_eq!(e.message(), String::from_utf8(vec![0xff]).unwrap_err().to_string());
    let e = accept(&reply(b"OK\xc3", &[1, 2])).unwrap_err();
    assert_eq!(e.message(), "incomplete utf-8 byte sequence from index 2");
    let fine = decode_response(&reply("h\u{e4}".as_bytes(), &[])).unwrap();
    assert_eq!(fine.status, "h\u{e4}");
}

#[test]
fn other_statuses_are_refused() {
    let r = Response { status: "ok".to_string(), data: vec![] };
    let e = r.validate_ok().unwrap_err();
    assert_eq!(e.message(), "Status is not OK, but ok.");
    let e = accept(&reply(b"BUSY", &[1])).unwrap_err();
    assert!(matches!(e, CameraError::StatusNotOk { .. }));
    assert_eq!(e.message(), "Status is not OK, but BUSY.");
    assert_eq!(accept(&reply(b"OK", &[1])).unwrap(), vec![1]);
}

#[test]
fn data_records_are_decoded() {
    let mut data = words(&[3, 100, 200, 300, 400]);
    data.extend(words(&[1, -7i32 as u32, 8, 9, -10i32 as u32]));
    let map = decode_data(&data).unwrap();
    assert_eq!(map.len(), 2);
    assert_eq!(
        map[&3],
        CameraResult {
            camera_position_in_projector: Point2i { x: 100, y: 200 },
            projector_position_in_camera: Point2i { x: 300, y: 400 },
        }
    );
    assert_eq!(
        map[&1],
        CameraResult {
            camera_position_in_projector: Point2i { x: -7, y: 8 },
            projector_position_in_camera: Point2i { x: 9, y: -10 },
        }
    );
    assert!(decode_data(&vec![]).unwrap().is_empty());
}

#[test]
fn the_last_record_of_a_projector_counts() {
    let mut data = words(&[3, 1, 1, 1, 1]);
    data.extend(words(&[3, 2, 2, 2, 2]));
    let map = decode_data(&data).unwrap();
    assert_eq!(map.len(), 1);
    assert_eq!(map[&3].camera_position_in_projector, Point2i { x: 2, y: 2 });
}

#[test]
fn partial_records_are_refused() {
    let e = decode_data(&vec![0; 21]).unwrap_err();
    assert_eq!(
        e.message(),
        "DATA payload of 21 bytes is not a multiple of the 20-byte record"
    );
    let e = decode_data_subpix(&vec![0; 19]).unwrap_err();
    assert_eq!(
        e.message(),
        "DATA_SUBPIX payload of 19 bytes is not a multiple of the 20-byte record"
    );
}

#[test]
fn subpixel_records_are_decoded() {
    let mut data = subpix(2, 640.25, -1.5);
    data.extend(subpix(0, f64::NAN, 3.0));
    data.extend(subpix(1, 3.0, f64::NAN));
    data.extend(subpix(4, f64::INFINITY, 0.0));
    let map = decode_data_subpix(&data).unwrap();
    assert_eq!(map.len(), 2);
    assert_eq!(
        map[&2],
        Point2d {
            x: F64 { bits: 640.25f64.to_bits() },
            y: F64 { bits: (-1.5f64).to_bits() },
        }
    );
    assert!(map.contains_key(&4));
}

#[test]
fn a_failed_refinement_keeps_the_earlier_one() {
    let mut data = subpix(2, 1.0, 2.0);
    data.extend(subpix(2, f64::NAN, f64::NAN));
    let map = decode_data_subpix(&data).unwrap();
    assert_eq!(f64::from_bits(map[&2].x.bits), 1.0);
}

#[test]
fn replies_are_checked_before_they_are_decoded() {
    let map = data_reply(&reply(b"OK", &words(&[0, 1, 2, 3, 4]))).unwrap();
    assert_eq!(map[&0].projector_position_in_camera, Point2i { x: 3, y: 4 });
    assert!(matches!(
        data_reply(&reply(b"NG", &[0])).unwrap_err(),
        CameraError::StatusNotOk { .. }
    ));
    assert!(matches!(
        data_reply(&reply(b"OK", &[0])).unwrap_err(),
        CameraError::PartialRecord { command: Command::Data, bytes: 1 }
    ));
    assert_eq!(data_subpix_reply(&reply(b"OK", &subpix(5, 1.0, 1.0))).unwrap().len(), 1);
    assert!(matches!(
        data_subpix_reply(&reply(b"OK", &[0, 1])).unwrap_err(),
        CameraError::PartialRecord { command: Command::DataSubpix, bytes: 2 }
    ));
}

#[test]
fn round_trips_are_averaged() {
    let ok = reply(b"OK", &[]);
    let mut probe = RttProbe::new(3).unwrap();
    for ms in [10u128, 11, 13] {
        assert!(probe.pending());
        probe.record(&ok, ms).unwrap();
    }
    assert!(!probe.pending());
    assert_eq!(probe.mean(), 11);
}

#[test]
fn a_refused_ping_is_not_recorded() {
    let mut probe = RttProbe::new(1).unwrap();
    assert!(probe.record(&reply(b"NG", &[]), 1).is_err());
    assert!(probe.pending());
    assert!(probe.samples.is_empty());
    let mut full = RttProbe::new(2).unwrap();
    full.record(&reply(b"OK", &[]), u32::MAX as u128).unwrap();
    let e = full.record(&reply(b"NG", &[]), 1).unwrap_err();
    assert_eq!(e.message(), "Status is not OK, but NG.");
    assert_eq!(full.samples, vec![u32::MAX]);
}

#[test]
fn no_pings_is_an_error() {
    let e = RttProbe::new(0).unwrap_err();
    assert_eq!(e.message(), "rtt trial count must be greater than zero");
}
