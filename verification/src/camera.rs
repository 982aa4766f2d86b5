//! The protocol spoken with the embedded-camera ("picamera") servers.
//!
//! Each camera runs a server that decodes Gray-code patterns and reports the
//! resulting projector/camera correspondences. Every frame on the wire is a
//! big-endian `u32` byte length followed by that many payload bytes. A request
//! payload is a length-prefixed command string followed by the command
//! arguments; a response payload is a length-prefixed status string ("OK" on
//! success) followed by the returned data. All integers and floats on the wire
//! are big-endian.
//!
//! This module builds the frames to send and takes the received payloads apart;
//! the socket belongs to the caller.

use std::collections::HashMap;

use vstd::prelude::*;
use vstd::slice::slice_subrange;
use vstd::string::*;
use vstd::utf8::{decode_utf8, encode_utf8, valid_utf8};

use crate::float_bits::F64;
use crate::text::{decimal, push_decimal};
use crate::types::{CameraResult, Point2d, Point2i, ProjectorId, Span};
use crate::wire::{
    be_all, be_bytes, be_u32, be_u64, lemma_signed, lemma_word, push_all, push_bytes, push_i32,
    push_u32, read_u32, read_u64, signed, word,
};

verus! {

/// What the error of `String::from_utf8` says of bytes that are not valid UTF-8.
pub uninterp spec fn utf8_complaint(bytes: Seq<u8>) -> Seq<char>;

/// Calls `String::from_utf8`, which turns bytes into text exactly when they are
/// valid UTF-8; the text is then the one that they encode. Otherwise its error is
/// handed on as the message that it shows, which is a function of the bytes. What
/// the message says is left to the standard library.
#[verifier::external_body]
fn text_of(bytes: Vec<u8>) -> (r: Result<String, String>)
    ensures
        r is Ok <==> valid_utf8(bytes@),
        r is Ok ==> r->Ok_0@ == decode_utf8(bytes@),
        r is Err ==> r->Err_0@ == utf8_complaint(bytes@),
{
    String::from_utf8(bytes).map_err(|e| e.to_string())
}

/// What a camera server can be asked.
#[derive(Clone, Copy, Debug, PartialEq, Eq, Structural)]
pub enum Command {
    /// Answer at once; used to measure the round trip.
    Rtt,
    /// Prepare for Gray-code decoding.
    Init,
    /// Report the decoded correspondences.
    Data,
    /// Report a still image.
    Capture,
    /// Prepare for the subpixel pass.
    InitSubpix,
    /// Report the refined positions.
    DataSubpix,
}

impl Command {
    /// The command string.
    pub open spec fn text(self) -> Seq<char> {
        match self {
            Command::Rtt => "RTT"@,
            Command::Init => "INIT"@,
            Command::Data => "DATA"@,
            Command::Capture => "CAPTURE"@,
            Command::InitSubpix => "INIT_SUBPIX"@,
            Command::DataSubpix => "DATA_SUBPIX"@,
        }
    }

    /// The command string.
    pub fn name(self) -> (r: &'static str)
        ensures
            r@ == self.text(),
    {
        match self {
            Command::Rtt => "RTT",
            Command::Init => "INIT",
            Command::Data => "DATA",
            Command::Capture => "CAPTURE",
            Command::InitSubpix => "INIT_SUBPIX",
            Command::DataSubpix => "DATA_SUBPIX",
        }
    }
}

/// Why a reply of a camera server was not accepted, or a request not made.
#[derive(Debug)]
pub enum CameraError {
    /// The server reported another status than "OK".
    StatusNotOk { status: String },
    /// The response does not hold the length of the status.
    ShortResponse,
    /// The response ends within the status.
    Truncated { status_len: usize, available: usize },
    /// The status is not text, and why.
    StatusNotText { cause: String },
    /// The payload does not consist of whole records.
    PartialRecord { command: Command, bytes: usize },
    /// A mean over no round trips was asked for.
    NoTrials,
}

/// Size in bytes of one record of a DATA or DATA_SUBPIX payload.
pub const RECORD_SIZE: usize = 20;

impl CameraError {
    /// The message shown to the operator.
    pub open spec fn text(self) -> Seq<char> {
        match self {
            CameraError::StatusNotOk { status } => "Status is not OK, but "@ + status@ + "."@,
            CameraError::ShortResponse => "response shorter than the 4-byte status length header"@,
            CameraError::Truncated { status_len, available } => "response truncated: status length "@
                + decimal(status_len as nat) + " exceeds the "@ + decimal(available as nat)
                + " payload bytes"@,
            CameraError::StatusNotText { cause } => cause@,
            CameraError::PartialRecord { command, bytes } => command.text() + " payload of "@
                + decimal(bytes as nat) + " bytes is not a multiple of the 20-byte record"@,
            CameraError::NoTrials => "rtt trial count must be greater than zero"@,
        }
    }

    /// The message shown to the operator.
    pub fn message(&self) -> (r: String)
        ensures
            r@ == self.text(),
    {
        let mut out = String::new();
        match self {
            CameraError::StatusNotOk { status } => {
                out.append("Status is not OK, but ");
                out.append(status.as_str());
                out.append(".");
            },
            CameraError::ShortResponse => {
                out.append("response shorter than the 4-byte status length header");
            },
            CameraError::Truncated { status_len, available } => {
                out.append("response truncated: status length ");
                push_decimal(&mut out, *status_len as u64);
                out.append(" exceeds the ");
                push_decimal(&mut out, *available as u64);
                out.append(" payload bytes");
            },
            CameraError::StatusNotText { cause } => {
                out.append(cause.as_str());
            },
            CameraError::PartialRecord { command, bytes } => {
                out.append(command.name());
                out.append(" payload of ");
                push_decimal(&mut out, *bytes as u64);
                out.append(" bytes is not a multiple of the 20-byte record");
            },
            CameraError::NoTrials => {
                out.append("rtt trial count must be greater than zero");
            },
        }
        assert(out@ =~= self.text());
        out
    }
}

// ---- frames and requests ----

/// One frame: the big-endian length of `data`, then `data`.
pub open spec fn framed(data: Seq<u8>) -> Seq<u8> {
    be_bytes((data.len() as usize) as u32) + data
}

/// The payload of a request: the length-prefixed command string, then `data`.
pub open spec fn request_payload(command: Seq<char>, data: Seq<u8>) -> Seq<u8> {
    framed(encode_utf8(command)) + data
}

/// Build one length-prefixed frame: a big-endian `u32` length, then `data`.
pub fn frame(data: &[u8]) -> (r: Vec<u8>)
    ensures
        r@ == framed(data@),
{
    let mut buffer: Vec<u8> = Vec::new();
    push_u32(&mut buffer, #[verifier::truncate] (data.len() as u32));
    push_bytes(&mut buffer, data);
    assert(buffer@ =~= framed(data@));
    buffer
}

/// Build the frame of a command request. The whole request is wrapped in one
/// outer length-prefixed frame.
pub fn request(command: Command, data: &[u8]) -> (r: Vec<u8>)
    ensures
        r@ == framed(request_payload(command.text(), data@)),
{
    let mut payload = frame(command.name().as_bytes());
    push_bytes(&mut payload, data);
    frame(payload.as_slice())
}

/// Length of the payload that a frame header announces.
pub fn frame_length(header: [u8; 4]) -> (n: u32)
    ensures
        n == be_u32(header@, 0),
{
    read_u32(header.as_slice(), 0)
}

/// The arguments of an INIT request: the three bit counts, then the timestamps.
pub open spec fn init_data(id_bits: u32, x_count: u32, y_count: u32, timestamps: Seq<u32>) -> Seq<u8> {
    be_all(seq![id_bits, x_count, y_count] + timestamps)
}

/// The arguments of an INIT request, which configures the camera for Gray-code
/// decoding: `id_bits_count`, `graycode_x_count` and `graycode_y_count`, each
/// as a big-endian `u32`, followed by one `u32` capture timestamp per pattern.
pub fn init_arguments(
    id_bits_count: u32,
    graycode_x_count: u32,
    graycode_y_count: u32,
    timestamps: &Vec<u32>,
) -> (data: Vec<u8>)
    ensures
        data@ == init_data(id_bits_count, graycode_x_count, graycode_y_count, timestamps@),
{
    let mut data: Vec<u8> = Vec::new();
    push_u32(&mut data, id_bits_count);
    push_u32(&mut data, graycode_x_count);
    push_u32(&mut data, graycode_y_count);
    push_all(&mut data, timestamps);
    proof {
        let head = seq![id_bits_count, graycode_x_count, graycode_y_count];
        lemma_be_all_concat(head, timestamps@);
        assert(head.drop_last() =~= seq![id_bits_count, graycode_x_count]);
        assert(head.drop_last().drop_last() =~= seq![id_bits_count]);
        assert(head.drop_last().drop_last().drop_last() =~= seq![]);
        reveal_with_fuel(be_all, 4);
        assert(data@ =~= be_all(head) + be_all(timestamps@));
    }
    data
}

/// Numbers written after other numbers form one run.
proof fn lemma_be_all_concat(a: Seq<u32>, b: Seq<u32>)
    ensures
        be_all(a + b) == be_all(a) + be_all(b),
    decreases b.len(),
{
    if b.len() == 0 {
        assert(a + b =~= a);
        assert(be_all(a + b) =~= be_all(a) + be_all(b));
    } else {
        lemma_be_all_concat(a, b.drop_last());
        assert((a + b).drop_last() =~= a + b.drop_last());
        assert(be_all(a + b) =~= be_all(a) + be_all(b));
    }
}

/// What one camera sweeps for one projector during the subpixel pass.
#[derive(Clone, Copy, Debug, PartialEq, Eq, Structural)]
pub struct SubpixEntry {
    /// Scan range along x.
    pub x_span: Span,
    /// Scan range along y.
    pub y_span: Span,
    /// Index of the first frame of the y sweep.
    pub y_starts_on: usize,
}

/// The five wire words of one entry.
pub open spec fn entry_words(e: SubpixEntry) -> Seq<u32> {
    seq![
        e.x_span.start as u32,
        e.x_span.end as u32,
        e.y_span.start as u32,
        e.y_span.end as u32,
        e.y_starts_on as u32,
    ]
}

/// The wire words of all entries, in order.
pub open spec fn entries_words(entries: Seq<SubpixEntry>) -> Seq<u32>
    decreases entries.len(),
{
    if entries.len() == 0 {
        seq![]
    } else {
        entries_words(entries.drop_last()) + entry_words(entries.last())
    }
}

/// The arguments of an INIT_SUBPIX request.
pub open spec fn init_subpix_data(entries: Seq<SubpixEntry>, timestamps: Seq<u32>) -> Seq<u8> {
    be_all(
        seq![(entries.len() as usize) as u32] + entries_words(entries)
            + seq![(timestamps.len() as usize) as u32] + timestamps,
    )
}

/// One number written after others extends the run.
proof fn lemma_be_all_push(a: Seq<u32>, v: u32)
    ensures
        be_all(a.push(v)) == be_all(a) + be_bytes(v),
{
    assert(a.push(v).drop_last() =~= a);
}

/// The arguments of an INIT_SUBPIX request: the entry count; per entry the
/// inclusive x range start/end and y range start/end (four `i32`s) plus
/// `y_starts_on` as a `u32`; then the timestamp count followed by one `u32` per
/// capture timestamp.
pub fn init_subpix_arguments(entries: &Vec<SubpixEntry>, timestamps: &Vec<u32>) -> (data: Vec<u8>)
    ensures
        data@ == init_subpix_data(entries@, timestamps@),
{
    let mut data: Vec<u8> = Vec::new();
    let ghost mut words: Seq<u32> = seq![];
    push_u32(&mut data, #[verifier::truncate] (entries.len() as u32));
    proof {
        lemma_be_all_push(words, entries.len() as u32);
        words = words.push(entries.len() as u32);
        assert(words =~= seq![entries.len() as u32] + entries_words(entries@.take(0)));
    }
    let mut i: usize = 0;
    while i < entries.len()
        invariant
            i <= entries.len(),
            words == seq![entries.len() as u32] + entries_words(entries@.take(i as int)),
            data@ == be_all(words),
        decreases entries.len() - i,
    {
        let e = entries[i];
        let ghost before = words;
        push_i32(&mut data, e.x_span.start);
        push_i32(&mut data, e.x_span.end);
        push_i32(&mut data, e.y_span.start);
        push_i32(&mut data, e.y_span.end);
        push_u32(&mut data, #[verifier::truncate] (e.y_starts_on as u32));
        proof {
            let w1 = words.push(e.x_span.start as u32);
            let w2 = w1.push(e.x_span.end as u32);
            let w3 = w2.push(e.y_span.start as u32);
            let w4 = w3.push(e.y_span.end as u32);
            let w5 = w4.push(e.y_starts_on as u32);
            lemma_be_all_push(words, e.x_span.start as u32);
            lemma_be_all_push(w1, e.x_span.end as u32);
            lemma_be_all_push(w2, e.y_span.start as u32);
            lemma_be_all_push(w3, e.y_span.end as u32);
            lemma_be_all_push(w4, e.y_starts_on as u32);
            words = w5;
            assert(words =~= before + entry_words(e));
            let next = entries@.take(i + 1);
            assert(next.drop_last() =~= entries@.take(i as int));
            assert(words =~= seq![entries.len() as u32] + entries_words(next));
        }
        i += 1;
    }
    proof {
        assert(entries@.take(i as int) =~= entries@);
        lemma_be_all_push(words, timestamps.len() as u32);
        words = words.push(timestamps.len() as u32);
        lemma_be_all_concat(words, timestamps@);
        assert(words + timestamps@ =~= seq![entries.len() as u32] + entries_words(entries@)
            + seq![timestamps.len() as u32] + timestamps@);
    }
    push_u32(&mut data, #[verifier::truncate] (timestamps.len() as u32));
    push_all(&mut data, timestamps);
    data
}

// ---- responses ----

/// A decoded server response: the status string plus the raw payload bytes.
#[derive(Debug)]
pub struct Response {
    /// Status string sent by the server; "OK" indicates success.
    pub status: String,
    /// Command-specific payload following the status field (may be empty).
    pub data: Vec<u8>,
}

impl Response {
    /// Succeed only when the server reported the "OK" status.
    pub fn validate_ok(&self) -> (r: Result<(), CameraError>)
        ensures
            r is Ok <==> self.status@ == "OK"@,
            r is Err ==> r->Err_0 == (CameraError::StatusNotOk { status: self.status }),
    {
        if self.status == "OK".to_owned() {
            Ok(())
        } else {
            Err(CameraError::StatusNotOk { status: self.status.clone() })
        }
    }
}

/// The length of the status that the response `raw` announces.
pub open spec fn status_len(raw: Seq<u8>) -> nat {
    be_u32(raw, 0) as nat
}

/// Whether `raw` holds the status length and a status of that length.
pub open spec fn holds_status(raw: Seq<u8>) -> bool {
    raw.len() >= 4 && raw.len() - 4 >= status_len(raw)
}

/// The bytes of the status.
pub open spec fn status_bytes(raw: Seq<u8>) -> Seq<u8> {
    raw.subrange(4, 4 + status_len(raw) as int)
}

/// The bytes behind the status.
pub open spec fn response_data(raw: Seq<u8>) -> Seq<u8> {
    raw.subrange(4 + status_len(raw) as int, raw.len() as int)
}

/// Split a response payload into status string and data.
/// Layout: big-endian `u32` status length, that many UTF-8 status bytes, then
/// the remaining bytes as the data.
pub fn decode_response(raw: &[u8]) -> (r: Result<Response, CameraError>)
    ensures
        r is Ok <==> holds_status(raw@) && valid_utf8(status_bytes(raw@)),
        r is Ok ==> r->Ok_0.status@ == decode_utf8(status_bytes(raw@)) && r->Ok_0.data@
            == response_data(raw@),
        raw@.len() < 4 ==> r == Err::<Response, CameraError>(CameraError::ShortResponse),
        raw@.len() >= 4 && !holds_status(raw@) ==> r == Err::<Response, CameraError>(
            CameraError::Truncated {
                status_len: status_len(raw@) as usize,
                available: (raw@.len() - 4) as usize,
            },
        ),
        holds_status(raw@) && !valid_utf8(status_bytes(raw@)) ==> r is Err && (
        r->Err_0 matches CameraError::StatusNotText { cause } && cause@ == utf8_complaint(
            status_bytes(raw@),
        )),
{
    if raw.len() < 4 {
        return Err(CameraError::ShortResponse);
    }
    let status_len: usize = read_u32(raw, 0) as usize;
    if raw.len() - 4 < status_len {
        return Err(CameraError::Truncated { status_len, available: raw.len() - 4 });
    }
    let mut status: Vec<u8> = Vec::new();
    push_bytes(&mut status, slice_subrange(raw, 4, status_len + 4));
    assert(status@ =~= status_bytes(raw@));
    let mut data: Vec<u8> = Vec::new();
    push_bytes(&mut data, slice_subrange(raw, status_len + 4, raw.len()));
    assert(data@ =~= response_data(raw@));
    match text_of(status) {
        Ok(status) => Ok(Response { status, data }),
        Err(cause) => Err(CameraError::StatusNotText { cause }),
    }
}

/// Whether `raw` is a response that reports success.
pub open spec fn accepted(raw: Seq<u8>) -> bool {
    &&& holds_status(raw)
    &&& valid_utf8(status_bytes(raw))
    &&& decode_utf8(status_bytes(raw)) == "OK"@
}

/// The error with which a response that does not report success is refused.
pub open spec fn refused_with(raw: Seq<u8>, e: CameraError) -> bool {
    if raw.len() < 4 {
        e is ShortResponse
    } else if !holds_status(raw) {
        e == (CameraError::Truncated {
            status_len: status_len(raw) as usize,
            available: (raw.len() - 4) as usize,
        })
    } else if !valid_utf8(status_bytes(raw)) {
        e matches CameraError::StatusNotText { cause } && cause@ == utf8_complaint(
            status_bytes(raw),
        )
    } else {
        e matches CameraError::StatusNotOk { status } && status@ == decode_utf8(status_bytes(raw))
    }
}

/// Take the data out of a response that reports success.
pub fn accept(raw: &[u8]) -> (r: Result<Vec<u8>, CameraError>)
    ensures
        r is Ok <==> accepted(raw@),
        r is Ok ==> r->Ok_0@ == response_data(raw@),
        r is Err ==> refused_with(raw@, r->Err_0),
{
    let response = match decode_response(raw) {
        Ok(response) => response,
        Err(e) => {
            return Err(e);
        },
    };
    match response.validate_ok() {
        Ok(_) => Ok(response.data),
        Err(e) => Err(e),
    }
}

// ---- DATA and DATA_SUBPIX ----

/// The correspondence in record `i` of a DATA payload: five `u32` fields, the
/// projector id, the projector pixel x and y, and the camera pixel x and y.
pub open spec fn data_record(data: Seq<u8>, i: int) -> CameraResult {
    let at = i * RECORD_SIZE;
    CameraResult {
        camera_position_in_projector: Point2i {
            x: be_u32(data, at + 4) as i32,
            y: be_u32(data, at + 8) as i32,
        },
        projector_position_in_camera: Point2i {
            x: be_u32(data, at + 12) as i32,
            y: be_u32(data, at + 16) as i32,
        },
    }
}

/// The projector id of record `i` of a DATA or DATA_SUBPIX payload.
pub open spec fn record_id(data: Seq<u8>, i: int) -> ProjectorId {
    be_u32(data, i * RECORD_SIZE)
}

/// What the first `n` records of a DATA payload say; of two records for the
/// same projector the later one counts.
pub open spec fn data_map(data: Seq<u8>, n: nat) -> Map<ProjectorId, CameraResult>
    decreases n,
{
    if n == 0 {
        Map::empty()
    } else {
        data_map(data, (n - 1) as nat).insert(record_id(data, n - 1), data_record(data, n - 1))
    }
}

/// Whether a payload consists of whole records.
pub open spec fn whole_records(data: Seq<u8>) -> bool {
    data.len() % (RECORD_SIZE as nat) == 0
}

/// How many whole records a payload holds.
pub open spec fn record_count(data: Seq<u8>) -> nat {
    data.len() / (RECORD_SIZE as nat)
}

/// Decode the integer (pixel-resolution) correspondences of a DATA payload: a
/// map from projector ID to the camera/projector pixel positions.
pub fn decode_data(data: &Vec<u8>) -> (r: Result<HashMap<ProjectorId, CameraResult>, CameraError>)
    ensures
        r is Ok <==> whole_records(data@),
        r is Ok ==> r->Ok_0@ == data_map(data@, record_count(data@)),
        r is Err ==> r->Err_0 == (CameraError::PartialRecord {
            command: Command::Data,
            bytes: data@.len() as usize,
        }),
{
    if data.len() % RECORD_SIZE != 0 {
        return Err(CameraError::PartialRecord { command: Command::Data, bytes: data.len() });
    }
    let record_count: usize = data.len() / RECORD_SIZE;
    let bytes = data.as_slice();
    let mut result: HashMap<ProjectorId, CameraResult> = HashMap::new();
    let mut i: usize = 0;
    while i < record_count
        invariant
            i <= record_count,
            record_count == data@.len() / (RECORD_SIZE as nat),
            bytes@ == data@,
            data.len() <= usize::MAX,
            result@ == data_map(data@, i as nat),
        decreases record_count - i,
    {
        let at: usize = i * RECORD_SIZE;
        let id: u32 = read_u32(bytes, at);
        let x: i32 = #[verifier::truncate] (read_u32(bytes, at + 4) as i32);
        let y: i32 = #[verifier::truncate] (read_u32(bytes, at + 8) as i32);
        let center_x: i32 = #[verifier::truncate] (read_u32(bytes, at + 12) as i32);
        let center_y: i32 = #[verifier::truncate] (read_u32(bytes, at + 16) as i32);
        result.insert(
            id,
            CameraResult {
                camera_position_in_projector: Point2i { x, y },
                projector_position_in_camera: Point2i { x: center_x, y: center_y },
            },
        );
        i += 1;
    }
    Ok(result)
}

/// The position in record `i` of a DATA_SUBPIX payload: a `u32` id, then two
/// binary64 coordinates.
pub open spec fn subpix_record(data: Seq<u8>, i: int) -> Point2d {
    let at = i * RECORD_SIZE;
    Point2d { x: F64 { bits: be_u64(data, at + 4) }, y: F64 { bits: be_u64(data, at + 12) } }
}

/// Whether a refined position is there at all: neither coordinate is NaN.
pub open spec fn refined(p: Point2d) -> bool {
    !p.x.nan() && !p.y.nan()
}

/// What the first `n` records of a DATA_SUBPIX payload say; failed refinements
/// are passed over, and of two others for the same projector the later one
/// counts.
pub open spec fn subpix_map(data: Seq<u8>, n: nat) -> Map<ProjectorId, Point2d>
    decreases n,
{
    if n == 0 {
        Map::empty()
    } else {
        let before = subpix_map(data, (n - 1) as nat);
        if refined(subpix_record(data, n - 1)) {
            before.insert(record_id(data, n - 1), subpix_record(data, n - 1))
        } else {
            before
        }
    }
}

/// Decode the refined projector positions of a DATA_SUBPIX payload: a map from
/// projector ID to subpixel position. Records whose coordinates are NaN
/// (refinement failed) are skipped.
pub fn decode_data_subpix(data: &Vec<u8>) -> (r: Result<HashMap<ProjectorId, Point2d>, CameraError>)
    ensures
        r is Ok <==> whole_records(data@),
        r is Ok ==> r->Ok_0@ == subpix_map(data@, record_count(data@)),
        r is Err ==> r->Err_0 == (CameraError::PartialRecord {
            command: Command::DataSubpix,
            bytes: data@.len() as usize,
        }),
{
    if data.len() % RECORD_SIZE != 0 {
        return Err(CameraError::PartialRecord { command: Command::DataSubpix, bytes: data.len() });
    }
    let record_count: usize = data.len() / RECORD_SIZE;
    let bytes = data.as_slice();
    let mut result: HashMap<ProjectorId, Point2d> = HashMap::new();
    let mut i: usize = 0;
    while i < record_count
        invariant
            i <= record_count,
            record_count == data@.len() / (RECORD_SIZE as nat),
            bytes@ == data@,
            data.len() <= usize::MAX,
            result@ == subpix_map(data@, i as nat),
        decreases record_count - i,
    {
        let at: usize = i * RECORD_SIZE;
        let id: u32 = read_u32(bytes, at);
        let x = F64 { bits: read_u64(bytes, at + 4) };
        let y = F64 { bits: read_u64(bytes, at + 12) };
        if !x.is_nan() && !y.is_nan() {
            result.insert(id, Point2d { x, y });
        }
        i += 1;
    }
    Ok(result)
}

/// The correspondences in a raw reply to a DATA request.
pub fn data_reply(raw: &[u8]) -> (r: Result<HashMap<ProjectorId, CameraResult>, CameraError>)
    ensures
        r is Ok <==> accepted(raw@) && whole_records(response_data(raw@)),
        r is Ok ==> r->Ok_0@ == data_map(
            response_data(raw@),
            record_count(response_data(raw@)),
        ),
        !accepted(raw@) ==> r is Err && refused_with(raw@, r->Err_0),
        accepted(raw@) && r is Err ==> r->Err_0 == (CameraError::PartialRecord {
            command: Command::Data,
            bytes: response_data(raw@).len() as usize,
        }),
{
    match accept(raw) {
        Ok(data) => decode_data(&data),
        Err(e) => Err(e),
    }
}

/// The refined positions in a raw reply to a DATA_SUBPIX request.
pub fn data_subpix_reply(raw: &[u8]) -> (r: Result<HashMap<ProjectorId, Point2d>, CameraError>)
    ensures
        r is Ok <==> accepted(raw@) && whole_records(response_data(raw@)),
        r is Ok ==> r->Ok_0@ == subpix_map(
            response_data(raw@),
            record_count(response_data(raw@)),
        ),
        !accepted(raw@) ==> r is Err && refused_with(raw@, r->Err_0),
        accepted(raw@) && r is Err ==> r->Err_0 == (CameraError::PartialRecord {
            command: Command::DataSubpix,
            bytes: response_data(raw@).len() as usize,
        }),
{
    match accept(raw) {
        Ok(data) => decode_data_subpix(&data),
        Err(e) => Err(e),
    }
}

// ---- round-trip time ----

/// Sum of the measured round-trip times.
pub open spec fn total(samples: Seq<u32>) -> nat
    decreases samples.len(),
{
    if samples.len() == 0 {
        0
    } else {
        total(samples.drop_last()) + samples.last() as nat
    }
}

/// A measurement of the average round-trip time over a number of "RTT" pings.
#[derive(Debug)]
pub struct RttProbe {
    /// How many pings to make.
    pub trial: u32,
    /// The round trips measured so far, in ms.
    pub samples: Vec<u32>,
}

impl RttProbe {
    /// At least one ping is to be made, no more than that were made, and their
    /// sum fits the accumulator.
    pub open spec fn wf(self) -> bool {
        &&& 0 < self.trial
        &&& self.samples@.len() <= self.trial
        &&& total(self.samples@) <= u32::MAX
    }

    /// Whether a ping is still to be made.
    pub open spec fn open(self) -> bool {
        self.samples@.len() < self.trial
    }

    /// Prepare for `trial` pings.
    pub fn new(trial: u32) -> (r: Result<RttProbe, CameraError>)
        ensures
            trial == 0 ==> r == Err::<RttProbe, CameraError>(CameraError::NoTrials),
            trial > 0 ==> r is Ok && r->Ok_0.wf() && r->Ok_0.trial == trial && r->Ok_0.samples@
                == Seq::<u32>::empty(),
    {
        if trial == 0 {
            return Err(CameraError::NoTrials);
        }
        Ok(RttProbe { trial, samples: Vec::new() })
    }

    /// Whether a ping is still to be made.
    pub fn pending(&self) -> (r: bool)
        ensures
            r == self.open(),
    {
        (self.samples.len() as u64) < self.trial as u64
    }

    /// Take in the reply to a ping that came after `elapsed_ms`.
    pub fn record(&mut self, raw: &[u8], elapsed_ms: u128) -> (r: Result<(), CameraError>)
        requires
            old(self).wf(),
            old(self).open(),
            accepted(raw@) ==> total(old(self).samples@) + (elapsed_ms as u32) <= u32::MAX,
        ensures
            final(self).wf(),
            final(self).trial == old(self).trial,
            r is Ok <==> accepted(raw@),
            r is Ok ==> final(self).samples@ == old(self).samples@.push(elapsed_ms as u32),
            r is Err ==> final(self).samples@ == old(self).samples@ && refused_with(raw@, r->Err_0),
    {
        match accept(raw) {
            Ok(_) => {
                let ghost before = self.samples@;
                let sample: u32 = #[verifier::truncate] (elapsed_ms as u32);
                self.samples.push(sample);
                assert(self.samples@.drop_last() =~= before);
                Ok(())
            },
            Err(e) => Err(e),
        }
    }

    /// The average round trip in ms, once all pings were made.
    pub fn mean(&self) -> (r: u32)
        requires
            self.wf(),
            !self.open(),
        ensures
            r == total(self.samples@) / (self.trial as nat),
    {
        let mut sum: u32 = 0;
        let mut i: usize = 0;
        assert(self.samples@.take(0) =~= seq![]);
        while i < self.samples.len()
            invariant
                self.wf(),
                i <= self.samples.len(),
                sum == total(self.samples@.take(i as int)),
            decreases self.samples.len() - i,
        {
            proof {
                let next = self.samples@.take(i + 1);
                assert(next.drop_last() =~= self.samples@.take(i as int));
                lemma_total_grows(self.samples@, i + 1);
            }
            sum += self.samples[i];
            i += 1;
        }
        assert(self.samples@.take(i as int) =~= self.samples@);
        sum / self.trial
    }
}

/// The sum of a part is at most the sum of the whole.
proof fn lemma_total_grows(samples: Seq<u32>, n: int)
    requires
        0 <= n <= samples.len(),
    ensures
        total(samples.take(n)) <= total(samples),
    decreases samples.len(),
{
    if n < samples.len() {
        lemma_total_grows(samples.drop_last(), n);
        assert(samples.drop_last().take(n) =~= samples.take(n));
    } else {
        assert(samples.take(n) =~= samples);
    }
}

// ---- laws ----

/// A frame announces the length of its payload, and the payload follows the
/// header: a reader that takes the header and then as many bytes as it says
/// has the payload, and starts at the next frame.
pub proof fn law_frame_delimits(data: Seq<u8>, rest: Seq<u8>)
    requires
        data.len() <= u32::MAX,
    ensures
        be_u32(framed(data) + rest, 0) == data.len(),
        (framed(data) + rest).subrange(4, 4 + data.len() as int) == data,
        (framed(data) + rest).skip(4 + data.len() as int) == rest,
{
    crate::wire::law_u32_round_trip(seq![], (data.len() as usize) as u32, data + rest);
    assert(framed(data) + rest =~= Seq::<u8>::empty() + be_bytes((data.len() as usize) as u32) + (data
        + rest));
    assert((framed(data) + rest).subrange(4, 4 + data.len() as int) =~= data);
    assert((framed(data) + rest).skip(4 + data.len() as int) =~= rest);
}

/// A payload made of a length-prefixed text and data is taken apart into that
/// text and that data. Requests and responses share this layout.
pub proof fn law_text_and_data_round_trip(text: Seq<char>, data: Seq<u8>)
    requires
        encode_utf8(text).len() <= u32::MAX,
    ensures
        holds_status(request_payload(text, data)),
        valid_utf8(status_bytes(request_payload(text, data))),
        decode_utf8(status_bytes(request_payload(text, data))) == text,
        response_data(request_payload(text, data)) == data,
{
    let raw = request_payload(text, data);
    law_frame_delimits(encode_utf8(text), data);
    assert(status_bytes(raw) =~= encode_utf8(text));
    assert(response_data(raw) =~= data);
    vstd::utf8::encode_utf8_valid_utf8(text);
    vstd::utf8::encode_utf8_decode_utf8(text);
}

/// A record that a server writes for a projector is read back as written.
pub proof fn law_data_record_round_trip(before: Seq<u8>, id: ProjectorId, r: CameraResult, rest: Seq<u8>)
    requires
        before.len() % (RECORD_SIZE as nat) == 0,
    ensures
        ({
            let (p, c) = (r.camera_position_in_projector, r.projector_position_in_camera);
            let data = before + be_bytes(id) + be_bytes(p.x as u32) + be_bytes(p.y as u32) + be_bytes(
                c.x as u32,
            ) + be_bytes(c.y as u32) + rest;
            let i = (before.len() / (RECORD_SIZE as nat)) as int;
            record_id(data, i) == id && data_record(data, i) == r
        }),
{
    let (p, c) = (r.camera_position_in_projector, r.projector_position_in_camera);
    let (w0, w1, w2, w3, w4) = (
        be_bytes(id),
        be_bytes(p.x as u32),
        be_bytes(p.y as u32),
        be_bytes(c.x as u32),
        be_bytes(c.y as u32),
    );
    let data = before + w0 + w1 + w2 + w3 + w4 + rest;
    let i = (before.len() / (RECORD_SIZE as nat)) as int;
    assert(i * RECORD_SIZE == before.len());
    crate::wire::law_u32_round_trip(before, id, w1 + w2 + w3 + w4 + rest);
    assert(data =~= before + w0 + (w1 + w2 + w3 + w4 + rest));
    crate::wire::law_u32_round_trip(before + w0, p.x as u32, w2 + w3 + w4 + rest);
    crate::wire::law_i32_round_trip(p.x);
    assert(data =~= (before + w0) + w1 + (w2 + w3 + w4 + rest));
    crate::wire::law_u32_round_trip(before + w0 + w1, p.y as u32, w3 + w4 + rest);
    crate::wire::law_i32_round_trip(p.y);
    assert(data =~= (before + w0 + w1) + w2 + (w3 + w4 + rest));
    crate::wire::law_u32_round_trip(before + w0 + w1 + w2, c.x as u32, w4 + rest);
    crate::wire::law_i32_round_trip(c.x);
    assert(data =~= (before + w0 + w1 + w2) + w3 + (w4 + rest));
    crate::wire::law_u32_round_trip(before + w0 + w1 + w2 + w3, c.y as u32, rest);
    crate::wire::law_i32_round_trip(c.y);
}

/// A projector is in the decoded DATA map exactly if a record names it, and its
/// entry is the last such record.
pub proof fn law_data_last_record_counts(data: Seq<u8>, n: nat, id: ProjectorId)
    ensures
        data_map(data, n).contains_key(id) <==> exists|i: int|
            0 <= i < n && #[trigger] record_id(data, i) == id,
        forall|i: int|
            0 <= i < n && #[trigger] record_id(data, i) == id && (forall|j: int|
                i < j < n ==> #[trigger] record_id(data, j) != id) ==> data_map(data, n)[id]
                == data_record(data, i),
    decreases n,
{
    if n > 0 {
        law_data_last_record_counts(data, (n - 1) as nat, id);
        if record_id(data, n - 1) == id {
            assert(data_map(data, n).contains_key(id));
        }
    }
}

/// A projector is in the decoded DATA_SUBPIX map exactly if a record without NaN
/// names it, and its entry is the last such record: no entry holds a NaN.
pub proof fn law_subpix_last_refinement_counts(data: Seq<u8>, n: nat, id: ProjectorId)
    ensures
        subpix_map(data, n).contains_key(id) <==> exists|i: int|
            0 <= i < n && #[trigger] record_id(data, i) == id && refined(subpix_record(data, i)),
        forall|i: int|
            0 <= i < n && #[trigger] record_id(data, i) == id && refined(subpix_record(data, i))
                && (forall|j: int|
                i < j < n && #[trigger] record_id(data, j) == id ==> !refined(
                    subpix_record(data, j),
                )) ==> subpix_map(data, n)[id] == subpix_record(data, i),
        subpix_map(data, n).contains_key(id) ==> refined(subpix_map(data, n)[id]),
    decreases n,
{
    if n > 0 {
        law_subpix_last_refinement_counts(data, (n - 1) as nat, id);
        if record_id(data, n - 1) == id && refined(subpix_record(data, n - 1)) {
            assert(subpix_map(data, n).contains_key(id));
        }
    }
}

/// An average lies between any bounds of the samples.
pub proof fn law_mean_within_bounds(samples: Seq<u32>, low: u32, high: u32)
    requires
        samples.len() > 0,
        forall|i: int| 0 <= i < samples.len() ==> low <= #[trigger] samples[i] <= high,
    ensures
        low <= total(samples) / samples.len() <= high,
{
    let n = samples.len();
    lemma_total_within(samples, low, high);
    assert(low <= total(samples) / n <= high) by (nonlinear_arith)
        requires
            n > 0,
            n * low <= total(samples) <= n * high,
    ;
}

/// The sum of `n` samples lies between `n` times their bounds.
proof fn lemma_total_within(samples: Seq<u32>, low: u32, high: u32)
    requires
        forall|i: int| 0 <= i < samples.len() ==> low <= #[trigger] samples[i] <= high,
    ensures
        samples.len() * low <= total(samples) <= samples.len() * high,
    decreases samples.len(),
{
    if samples.len() > 0 {
        let head = samples.drop_last();
        assert forall|i: int| 0 <= i < head.len() implies low <= #[trigger] head[i] <= high by {
            assert(head[i] == samples[i]);
        }
        lemma_total_within(head, low, high);
        let (n, m) = (head.len() as int, samples.len() as int);
        let (l, h) = (low as int, high as int);
        assert(samples.last() == samples[n]);
        assert(m * l == n * l + l) by (nonlinear_arith)
            requires
                m == n + 1,
        ;
        assert(m * h == n * h + h) by (nonlinear_arith)
            requires
                m == n + 1,
        ;
    } else {
        let m = samples.len() as int;
        assert(m * low == 0 && m * high == 0) by (nonlinear_arith)
            requires
                m == 0,
        ;
    }
}

/// A frame is the length of its payload and then the payload.
pub proof fn law_frame(data: &[u8], r: Vec<u8>)
    requires
        call_ensures(frame, (data,), r),
        data@.len() <= u32::MAX,
    ensures
        r@.len() == data@.len() + 4,
        word(r@, 0) == data@.len(),
        r@.skip(4) == data@,
{
    law_frame_delimits(data@, Seq::empty());
    assert(framed(data@) + Seq::<u8>::empty() =~= r@);
    lemma_word(r@, 0);
    assert(r@.skip(4) =~= data@);
}

/// The length of a frame is read as it was written.
pub proof fn law_frame_length(header: [u8; 4], n: u32)
    requires
        call_ensures(frame_length, (header,), n),
    ensures
        n == word(header@, 0),
{
    lemma_word(header@, 0);
}

/// A request is a frame that holds the name of the command, behind its own length, and
/// the arguments behind the name.
pub proof fn law_request(command: Command, data: &[u8], name: &str, r: Vec<u8>)
    requires
        call_ensures(request, (command, data), r),
        call_ensures(Command::name, (command,), name),
        8 + encode_utf8(name@).len() + data@.len() <= u32::MAX,
    ensures
        r@.len() == 8 + encode_utf8(name@).len() + data@.len(),
        word(r@, 0) == r@.len() - 4,
        word(r@, 4) == encode_utf8(name@).len(),
        r@.subrange(8, 8 + encode_utf8(name@).len() as int) == encode_utf8(name@),
        r@.skip(8 + encode_utf8(name@).len() as int) == data@,
{
    let text = encode_utf8(name@);
    let payload = request_payload(name@, data@);
    law_frame_delimits(payload, Seq::empty());
    law_frame_delimits(text, data@);
    assert(framed(payload) + Seq::<u8>::empty() =~= r@);
    assert(r@ =~= be_bytes((payload.len() as usize) as u32) + payload);
    assert(payload =~= r@.skip(4));
    lemma_word(r@, 0);
    lemma_word(payload, 0);
    assert(word(r@, 4) == word(payload, 0));
    assert(r@.subrange(8, 8 + text.len() as int) =~= text);
    assert(r@.skip(8 + text.len() as int) =~= data@);
}

/// The names of the commands.
pub proof fn law_command_names(command: Command, name: &str)
    requires
        call_ensures(Command::name, (command,), name),
    ensures
        command is Rtt ==> name@ == "RTT"@,
        command is Init ==> name@ == "INIT"@,
        command is Data ==> name@ == "DATA"@,
        command is Capture ==> name@ == "CAPTURE"@,
        command is InitSubpix ==> name@ == "INIT_SUBPIX"@,
        command is DataSubpix ==> name@ == "DATA_SUBPIX"@,
{
}

/// What an error says: the numbers and texts that it holds, in their places.
pub proof fn law_error_messages(e: CameraError, r: String)
    requires
        call_ensures(CameraError::message, (&e,), r),
    ensures
        (e matches CameraError::StatusNotOk { status } ==> r@ == "Status is not OK, but "@ + status@
            + "."@),
        e is ShortResponse ==> r@ == "response shorter than the 4-byte status length header"@,
        (e matches CameraError::Truncated { status_len, available } ==> r@
            == "response truncated: status length "@ + decimal(status_len as nat) + " exceeds the "@
            + decimal(available as nat) + " payload bytes"@),
        (e matches CameraError::StatusNotText { cause } ==> r@ == cause@),
        e is PartialRecord && e->command is Data ==> r@ == "DATA"@ + " payload of "@ + decimal(
            e->bytes as nat,
        ) + " bytes is not a multiple of the 20-byte record"@,
        e is PartialRecord && e->command is DataSubpix ==> r@ == "DATA_SUBPIX"@ + " payload of "@ + decimal(
            e->bytes as nat,
        ) + " bytes is not a multiple of the 20-byte record"@,
        e is NoTrials ==> r@ == "rtt trial count must be greater than zero"@,
{
}

/// The arguments of a calibration are words: the three counts, and then all timestamps.
pub proof fn law_init_arguments(
    id_bits: u32,
    x_count: u32,
    y_count: u32,
    timestamps: &Vec<u32>,
    data: Vec<u8>,
    i: int,
)
    requires
        call_ensures(init_arguments, (id_bits, x_count, y_count, timestamps), data),
    ensures
        data@.len() == 12 + 4 * timestamps@.len(),
        word(data@, 0) == id_bits,
        word(data@, 4) == x_count,
        word(data@, 8) == y_count,
        0 <= i < timestamps@.len() ==> word(data@, 12 + 4 * i) == timestamps@[i],
{
    let words = seq![id_bits, x_count, y_count] + timestamps@;
    lemma_words(words, data@, 0);
    lemma_words(words, data@, 1);
    lemma_words(words, data@, 2);
    if 0 <= i < timestamps@.len() {
        lemma_words(words, data@, 3 + i);
    }
}

/// Words that were written are there to be read.
proof fn lemma_words(words: Seq<u32>, data: Seq<u8>, i: int)
    requires
        data == be_all(words),
        0 <= i < words.len(),
    ensures
        data.len() == 4 * words.len(),
        word(data, 4 * i) == words[i],
{
    crate::wire::law_be_all_len(words);
    assert(data =~= Seq::<u8>::empty() + be_all(words) + Seq::<u8>::empty());
    crate::wire::law_be_all_round_trip(Seq::empty(), words, Seq::empty(), i);
    lemma_word(data, 4 * i);
}

/// The arguments of a sweep are words: how many projectors there are, then for each of
/// them the ends of its range along x and along y and the frame on which the sweep along
/// y starts, then how many timestamps there are, then all of them.
pub proof fn law_init_subpix_arguments(
    entries: &Vec<SubpixEntry>,
    timestamps: &Vec<u32>,
    data: Vec<u8>,
    k: int,
    i: int,
)
    requires
        call_ensures(init_subpix_arguments, (entries, timestamps), data),
        entries@.len() <= u32::MAX,
        timestamps@.len() <= u32::MAX,
        0 <= k < entries@.len(),
        entries@[k].y_starts_on <= u32::MAX,
    ensures
        data@.len() == 8 + 20 * entries@.len() + 4 * timestamps@.len(),
        word(data@, 0) == entries@.len(),
        signed(word(data@, 4 + 20 * k)) == entries@[k].x_span.start,
        signed(word(data@, 8 + 20 * k)) == entries@[k].x_span.end,
        signed(word(data@, 12 + 20 * k)) == entries@[k].y_span.start,
        signed(word(data@, 16 + 20 * k)) == entries@[k].y_span.end,
        word(data@, 20 + 20 * k) == entries@[k].y_starts_on,
        word(data@, 4 + 20 * entries@.len() as int) == timestamps@.len(),
        0 <= i < timestamps@.len() ==> word(data@, 8 + 20 * entries@.len() + 4 * i)
            == timestamps@[i],
{
    let n = entries@.len() as int;
    let words = seq![(n as usize) as u32] + entries_words(entries@)
        + seq![(timestamps@.len() as usize) as u32] + timestamps@;
    lemma_entries_words(entries@, k);
    let e = entries@[k];
    let at = 1 + 5 * k;
    assert(words[at] == e.x_span.start as u32);
    assert(words[at + 1] == e.x_span.end as u32);
    assert(words[at + 2] == e.y_span.start as u32);
    assert(words[at + 3] == e.y_span.end as u32);
    assert(words[at + 4] == e.y_starts_on as u32);
    lemma_words(words, data@, 0);
    lemma_words(words, data@, at);
    lemma_words(words, data@, at + 1);
    lemma_words(words, data@, at + 2);
    lemma_words(words, data@, at + 3);
    lemma_words(words, data@, at + 4);
    lemma_unsigned(e.x_span.start);
    lemma_unsigned(e.x_span.end);
    lemma_unsigned(e.y_span.start);
    lemma_unsigned(e.y_span.end);
    assert(words[1 + 5 * n] == timestamps@.len());
    lemma_words(words, data@, 1 + 5 * n);
    if 0 <= i < timestamps@.len() {
        assert(words[2 + 5 * n + i] == timestamps@[i]);
        lemma_words(words, data@, 2 + 5 * n + i);
    }
}

/// The unsigned form of a number is read as that number.
proof fn lemma_unsigned(v: i32)
    ensures
        signed((v as u32) as int) == v,
{
    crate::wire::law_i32_round_trip(v);
    lemma_signed(v as u32);
}

/// The words of an entry among all.
proof fn lemma_entries_words(entries: Seq<SubpixEntry>, k: int)
    requires
        0 <= k < entries.len(),
    ensures
        entries_words(entries).len() == 5 * entries.len(),
        entries_words(entries).subrange(5 * k, 5 * k + 5) == entry_words(entries[k]),
        forall|j: int|
            0 <= j < 5 ==> #[trigger] entry_words(entries[k])[j] == entries_words(entries)[5 * k + j],
    decreases entries.len(),
{
    let head = entries.drop_last();
    lemma_entries_words_len(head);
    lemma_entries_words_len(entries);
    if k < entries.len() - 1 {
        lemma_entries_words(head, k);
        assert(entries_words(entries).subrange(5 * k, 5 * k + 5) =~= entries_words(head).subrange(
            5 * k,
            5 * k + 5,
        ));
    } else {
        assert(entries_words(entries).subrange(5 * k, 5 * k + 5) =~= entry_words(entries[k]));
    }
    assert forall|j: int| 0 <= j < 5 implies #[trigger] entry_words(entries[k])[j] == entries_words(
        entries,
    )[5 * k + j] by {
        assert(entries_words(entries).subrange(5 * k, 5 * k + 5)[j] == entries_words(entries)[5 * k
            + j]);
    }
}

/// An entry takes five words.
proof fn lemma_entries_words_len(entries: Seq<SubpixEntry>)
    ensures
        entries_words(entries).len() == 5 * entries.len(),
    decreases entries.len(),
{
    if entries.len() > 0 {
        lemma_entries_words_len(entries.drop_last());
    }
}

/// A response is its status, behind the status's length, and then the data.
pub proof fn law_response(raw: &[u8], r: Result<Response, CameraError>)
    requires
        call_ensures(decode_response, (raw,), r),
    ensures
        raw@.len() < 4 ==> r is Err && r->Err_0 is ShortResponse,
        raw@.len() >= 4 && raw@.len() - 4 < word(raw@, 0) ==> r is Err && r->Err_0 is Truncated
            && r->Err_0->status_len == word(raw@, 0) && r->Err_0->available == raw@.len() - 4,
        r is Ok ==> encode_utf8(r->Ok_0.status@) == raw@.subrange(4, 4 + word(raw@, 0))
            && r->Ok_0.data@ == raw@.skip(4 + word(raw@, 0)),
        raw@.len() >= 4 && raw@.len() - 4 >= word(raw@, 0) && (exists|text: Seq<char>|
            raw@.subrange(4, 4 + word(raw@, 0)) == #[trigger] encode_utf8(text)) ==> r is Ok,
{
    if raw@.len() >= 4 {
        lemma_word(raw@, 0);
        if raw@.len() - 4 >= word(raw@, 0) {
            let status = raw@.subrange(4, 4 + word(raw@, 0));
            assert(status == status_bytes(raw@));
            if r is Ok {
                vstd::utf8::decode_utf8_encode_utf8(status);
                assert(r->Ok_0.data@ =~= raw@.skip(4 + word(raw@, 0)));
            }
            if exists|text: Seq<char>| status == #[trigger] encode_utf8(text) {
                let text = choose|text: Seq<char>| status == #[trigger] encode_utf8(text);
                vstd::utf8::encode_utf8_valid_utf8(text);
            }
        }
    }
}

/// A response is accepted exactly if its status has the two letters `O` and `K`, and
/// what is taken of it is the data behind the status.
pub proof fn law_accepted_response(raw: &[u8], r: Result<Vec<u8>, CameraError>)
    requires
        call_ensures(accept, (raw,), r),
    ensures
        r is Ok <==> raw@.len() >= 6 && word(raw@, 0) == 2 && raw@[4] == 79 && raw@[5] == 75,
        r is Ok ==> r->Ok_0@ == raw@.skip(6),
{
    reveal_strlit("OK");
    let ok = "OK"@;
    vstd::utf8::is_ascii_chars_encode_utf8(ok);
    assert(ok[0] == 'O' && ok[1] == 'K');
    let bytes = encode_utf8(ok);
    assert(bytes[0] == 79 && bytes[1] == 75);
    lemma_word(raw@, 0);
    if accepted(raw@) {
        let status = status_bytes(raw@);
        vstd::utf8::decode_utf8_encode_utf8(status);
        assert(status == bytes);
        assert(raw@[4] == status[0] && raw@[5] == status[1]);
        assert(r->Ok_0@ =~= raw@.skip(6));
    }
    if raw@.len() >= 6 && word(raw@, 0) == 2 && raw@[4] == 79 && raw@[5] == 75 {
        assert(status_bytes(raw@) =~= bytes);
        vstd::utf8::encode_utf8_valid_utf8(ok);
        vstd::utf8::encode_utf8_decode_utf8(ok);
    }
}

/// A response with another status is refused with that status.
pub proof fn law_refused_status(
    raw: &[u8],
    response: Result<Response, CameraError>,
    r: Result<Vec<u8>, CameraError>,
)
    requires
        call_ensures(decode_response, (raw,), response),
        call_ensures(accept, (raw,), r),
        response is Ok,
        r is Err,
    ensures
        r->Err_0 is StatusNotOk,
        r->Err_0->status@ == response->Ok_0.status@,
{
}

/// What a camera reports of a projector: a record of 20 bytes is five words, the
/// projector, the pixel of the projector at which the camera stands, and the pixel of
/// the camera at which the projector stands. The last record of a projector counts.
pub proof fn law_decoded_data(
    data: &Vec<u8>,
    r: Result<HashMap<ProjectorId, CameraResult>, CameraError>,
    id: ProjectorId,
    i: int,
)
    requires
        call_ensures(decode_data, (data,), r),
    ensures
        r is Ok <==> data@.len() % 20 == 0,
        r is Err ==> r->Err_0 is PartialRecord && r->Err_0->command is Data && r->Err_0->bytes
            == data.len(),
        r is Ok ==> (r->Ok_0@.contains_key(id) <==> exists|j: int|
            0 <= j < data@.len() / 20 && #[trigger] word(data@, 20 * j) == id),
        r is Ok && 0 <= i < data@.len() / 20 && word(data@, 20 * i) == id && (forall|j: int|
            i < j < data@.len() / 20 ==> #[trigger] word(data@, 20 * j) != id) ==> {
            let (camera, projector) = (
                r->Ok_0@[id].camera_position_in_projector,
                r->Ok_0@[id].projector_position_in_camera,
            );
            &&& camera.x == signed(word(data@, 20 * i + 4))
            &&& camera.y == signed(word(data@, 20 * i + 8))
            &&& projector.x == signed(word(data@, 20 * i + 12))
            &&& projector.y == signed(word(data@, 20 * i + 16))
        },
{
    if r is Ok {
        let n = record_count(data@);
        law_data_last_record_counts(data@, n, id);
        lemma_record_ids(data@);
        if exists|j: int| 0 <= j < n && #[trigger] record_id(data@, j) == id {
            let j = choose|j: int| 0 <= j < n && #[trigger] record_id(data@, j) == id;
            assert(word(data@, 20 * j) == id);
        }
        if exists|j: int| 0 <= j < n && #[trigger] word(data@, 20 * j) == id {
            let j = choose|j: int| 0 <= j < n && #[trigger] word(data@, 20 * j) == id;
            assert(record_id(data@, j) == id);
        }
        if 0 <= i < n && word(data@, 20 * i) == id && (forall|j: int|
            i < j < n ==> #[trigger] word(data@, 20 * j) != id) {
            assert(record_id(data@, i) == id);
            assert forall|j: int| i < j < n implies #[trigger] record_id(data@, j) != id by {
                assert(word(data@, 20 * j) != id);
            }
            assert(r->Ok_0@[id] == data_record(data@, i));
            lemma_word(data@, 20 * i + 4);
            lemma_word(data@, 20 * i + 8);
            lemma_word(data@, 20 * i + 12);
            lemma_word(data@, 20 * i + 16);
        }
    }
}

/// The first word of a record names the projector.
proof fn lemma_record_ids(data: Seq<u8>)
    ensures
        forall|j: int| #[trigger] record_id(data, j) == word(data, 20 * j),
        forall|j: int| #[trigger] word(data, 20 * j) == record_id(data, j),
{
    assert forall|j: int| #[trigger] record_id(data, j) == word(data, 20 * j) by {
        assert(j * RECORD_SIZE == 20 * j);
        lemma_word(data, 20 * j);
    }
}

/// What a camera reports of a sweep: a record of 20 bytes is the projector, as one word,
/// and the two coordinates, as two words each. A record with a coordinate that is no
/// number does not count; of the others, the last of a projector does.
pub proof fn law_decoded_subpix(
    data: &Vec<u8>,
    r: Result<HashMap<ProjectorId, Point2d>, CameraError>,
    id: ProjectorId,
    i: int,
)
    requires
        call_ensures(decode_data_subpix, (data,), r),
    ensures
        r is Ok <==> data@.len() % 20 == 0,
        r is Err ==> r->Err_0 is PartialRecord && r->Err_0->command is DataSubpix && r->Err_0->bytes
            == data.len(),
        r is Ok ==> (r->Ok_0@.contains_key(id) <==> exists|j: int|
            0 <= j < data@.len() / 20 && #[trigger] word(data@, 20 * j) == id && holds_numbers(
                data@,
                j,
            )),
        r is Ok && 0 <= i < data@.len() / 20 && word(data@, 20 * i) == id && holds_numbers(data@, i)
            && (forall|j: int|
            i < j < data@.len() / 20 && #[trigger] word(data@, 20 * j) == id ==> !holds_numbers(
                data@,
                j,
            )) ==> {
            let p = r->Ok_0@[id];
            &&& p.x.bits == word(data@, 20 * i + 4) * 0x1_0000_0000 + word(data@, 20 * i + 8)
            &&& p.y.bits == word(data@, 20 * i + 12) * 0x1_0000_0000 + word(data@, 20 * i + 16)
        },
{
    if r is Ok {
        let n = record_count(data@);
        law_subpix_last_refinement_counts(data@, n, id);
        lemma_record_ids(data@);
        assert forall|j: int| #[trigger] holds_numbers(data@, j) == refined(subpix_record(data@, j)) by {
            lemma_subpix_record(data@, j);
        }
        if exists|j: int|
            0 <= j < n && #[trigger] record_id(data@, j) == id && refined(subpix_record(data@, j)) {
            let j = choose|j: int|
                0 <= j < n && #[trigger] record_id(data@, j) == id && refined(
                    subpix_record(data@, j),
                );
            assert(word(data@, 20 * j) == id && holds_numbers(data@, j));
        }
        if exists|j: int| 0 <= j < n && #[trigger] word(data@, 20 * j) == id && holds_numbers(data@, j) {
            let j = choose|j: int|
                0 <= j < n && #[trigger] word(data@, 20 * j) == id && holds_numbers(data@, j);
            assert(record_id(data@, j) == id);
        }
        if 0 <= i < n && word(data@, 20 * i) == id && holds_numbers(data@, i) && (forall|j: int|
            i < j < n && #[trigger] word(data@, 20 * j) == id ==> !holds_numbers(data@, j)) {
            assert(record_id(data@, i) == id);
            assert forall|j: int| i < j < n && #[trigger] record_id(data@, j) == id implies !refined(
                subpix_record(data@, j),
            ) by {
                assert(word(data@, 20 * j) == id);
                assert(!holds_numbers(data@, j));
            }
            lemma_subpix_record(data@, i);
        }
    }
}

/// Whether both coordinates of a record are numbers: the exponent of neither has all
/// bits set beside a fraction.
pub open spec fn holds_numbers(data: Seq<u8>, i: int) -> bool {
    let x = word(data, 20 * i + 4) * 0x1_0000_0000 + word(data, 20 * i + 8);
    let y = word(data, 20 * i + 12) * 0x1_0000_0000 + word(data, 20 * i + 16);
    &&& x % 0x8000_0000_0000_0000 <= 0x7ff0_0000_0000_0000
    &&& y % 0x8000_0000_0000_0000 <= 0x7ff0_0000_0000_0000
}

/// The coordinates of a record.
proof fn lemma_subpix_record(data: Seq<u8>, i: int)
    ensures
        subpix_record(data, i).x.bits == word(data, 20 * i + 4) * 0x1_0000_0000 + word(
            data,
            20 * i + 8,
        ),
        subpix_record(data, i).y.bits == word(data, 20 * i + 12) * 0x1_0000_0000 + word(
            data,
            20 * i + 16,
        ),
        holds_numbers(data, i) == refined(subpix_record(data, i)),
{
    assert(i * RECORD_SIZE == 20 * i);
    lemma_word(data, 20 * i + 4);
    lemma_word(data, 20 * i + 8);
    lemma_word(data, 20 * i + 12);
    lemma_word(data, 20 * i + 16);
}

/// A reply is decoded as its data are, once it is accepted.
pub proof fn law_replies_hold_data(
    raw: &[u8],
    accepted: Result<Vec<u8>, CameraError>,
    data: Result<HashMap<ProjectorId, CameraResult>, CameraError>,
    reply: Result<HashMap<ProjectorId, CameraResult>, CameraError>,
    subpix: Result<HashMap<ProjectorId, Point2d>, CameraError>,
    subpix_reply: Result<HashMap<ProjectorId, Point2d>, CameraError>,
)
    requires
        call_ensures(accept, (raw,), accepted),
        call_ensures(data_reply, (raw,), reply),
        call_ensures(data_subpix_reply, (raw,), subpix_reply),
        accepted is Ok ==> call_ensures(decode_data, (&accepted->Ok_0,), data) && call_ensures(
            decode_data_subpix,
            (&accepted->Ok_0,),
            subpix,
        ),
    ensures
        accepted is Err ==> reply is Err && subpix_reply is Err,
        accepted is Ok ==> (reply is Ok <==> data is Ok) && (subpix_reply is Ok <==> subpix is Ok),
        accepted is Ok && data is Ok ==> reply->Ok_0@ == data->Ok_0@,
        accepted is Ok && subpix is Ok ==> subpix_reply->Ok_0@ == subpix->Ok_0@,
        accepted is Ok && data is Err ==> reply->Err_0 == data->Err_0,
        accepted is Ok && subpix is Err ==> subpix_reply->Err_0 == subpix->Err_0,
{
}

/// The average is the sum of the samples by their number, rounded down.
pub proof fn law_mean_is_the_average(probe: &RttProbe, r: u32)
    requires
        call_ensures(RttProbe::mean, (probe,), r),
        probe.trial > 0,
    ensures
        ({
            let sum = probe.samples@.fold_left(0int, |sum: int, sample: u32| sum + sample);
            r * probe.trial <= sum < (r + 1) * probe.trial
        }),
{
    let n = probe.trial as int;
    let sum = total(probe.samples@) as int;
    lemma_total_is_the_sum(probe.samples@);
    vstd::arithmetic::div_mod::lemma_fundamental_div_mod(sum, n);
    assert(n * (sum / n) == (sum / n) * n) by (nonlinear_arith);
    assert((sum / n + 1) * n == (sum / n) * n + n) by (nonlinear_arith);
}

/// The total adds up all samples.
proof fn lemma_total_is_the_sum(samples: Seq<u32>)
    ensures
        total(samples) == samples.fold_left(0int, |sum: int, sample: u32| sum + sample),
    decreases samples.len(),
{
    reveal_with_fuel(Seq::fold_left, 2);
    if samples.len() > 0 {
        lemma_total_is_the_sum(samples.drop_last());
    }
}

/// A ping that is answered adds its time to the samples, one that is refused adds
/// nothing; and pings are to be made as long as there are fewer samples than asked for.
pub proof fn law_pings_are_counted(
    probe: &mut RttProbe,
    raw: &[u8],
    elapsed_ms: u128,
    accepted: Result<Vec<u8>, CameraError>,
    r: Result<(), CameraError>,
    pending: bool,
)
    requires
        call_ensures(RttProbe::record, (probe, raw, elapsed_ms), r),
        call_ensures(accept, (raw,), accepted),
        call_ensures(RttProbe::pending, (&*final(probe),), pending),
        elapsed_ms <= u32::MAX,
    ensures
        r is Ok <==> accepted is Ok,
        r is Ok ==> final(probe).samples@.len() == old(probe).samples@.len() + 1,
        r is Ok ==> final(probe).samples@[old(probe).samples@.len() as int] == elapsed_ms,
        r is Err ==> final(probe).samples@.len() == old(probe).samples@.len(),
        forall|i: int|
            0 <= i < old(probe).samples@.len() ==> #[trigger] final(probe).samples@[i]
                == old(probe).samples@[i],
        final(probe).trial == old(probe).trial,
        pending <==> final(probe).samples@.len() < final(probe).trial,
{
}

} // verus!
