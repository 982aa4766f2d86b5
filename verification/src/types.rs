//! Shared data types of the calibration pipeline: identifiers, points and
//! sizes, per-camera decoded correspondences and calibration results.

use std::collections::BTreeMap;

use vstd::prelude::*;
use vstd::string::*;

use crate::float_bits::{law_nearest_single_rounds, nearest_single, whole_rounds_to, F32, F64};

verus! {

/// A pixel position.
#[derive(Clone, Copy, Debug, PartialEq, Eq, Structural)]
pub struct Point2i {
    pub x: i32,
    pub y: i32,
}

/// A position in single precision.
#[derive(Clone, Copy, Debug, PartialEq, Eq, Structural)]
pub struct Point2f {
    pub x: F32,
    pub y: F32,
}

/// A position in double precision.
#[derive(Clone, Copy, Debug, PartialEq, Eq, Structural)]
pub struct Point2d {
    pub x: F64,
    pub y: F64,
}

/// A spatial position in single precision.
#[derive(Clone, Copy, Debug, PartialEq, Eq, Structural)]
pub struct Point3f {
    pub x: F32,
    pub y: F32,
    pub z: F32,
}

/// An extent in pixels or grid points.
#[derive(Clone, Copy, Debug, PartialEq, Eq, Structural)]
pub struct Size {
    pub width: i32,
    pub height: i32,
}

/// An axis-aligned rectangle in pixels.
#[derive(Clone, Copy, Debug, PartialEq, Eq, Structural)]
pub struct Rect {
    pub x: i32,
    pub y: i32,
    pub width: i32,
    pub height: i32,
}

/// An inclusive range of projector coordinates.
#[derive(Clone, Copy, Debug, PartialEq, Eq, Structural)]
pub struct Span {
    pub start: i32,
    pub end: i32,
}

/// Identifies which projector (`0..projector_count`); this is the projector
/// identity encoded in the Gray-code ID bits and decoded by each camera.
pub type ProjectorId = u32;

/// Identifies an embedded camera within the rig (its index in the camera list).
pub type CameraId = usize;

/// A single decoded correspondence reported by an embedded camera.
#[derive(Clone, Copy, Debug, PartialEq, Eq, Structural)]
pub struct CameraResult {
    /// Projector-image pixel illuminating this camera's optical center.
    pub camera_position_in_projector: Point2i,
    /// Camera-image pixel (centroid) that received the projector's light.
    pub projector_position_in_camera: Point2i,
}

/// Correspondences for one projector point across all cameras that saw it.
#[derive(Clone, Debug, PartialEq)]
pub struct CalibrationResultEntry {
    /// Decoded result per camera ID for this projector point.
    pub cameras: BTreeMap<CameraId, CameraResult>,
}

/// Full calibration result: one entry per projector point.
pub type CalibrationResult = Vec<CalibrationResultEntry>;

/// One mesh control point pairing a projector position seen by an embedded
/// camera with that camera's effective position on the board.
#[derive(Clone, Copy, Debug, PartialEq, Eq, Structural)]
pub struct CameraMeshPointPair {
    /// Camera-image pixel observing the projector's pixel.
    pub projector_position_in_embedded_camera: Point2i,
    /// Where that ray meets the board, in world coordinates (mm).
    pub effective_camera_position_in_world: Point2f,
}

/// A pixel as a point: each coordinate is the nearest number.
pub open spec fn pixel_point(p: Point2i) -> Point2f {
    Point2f { x: nearest_single(p.x as int), y: nearest_single(p.y as int) }
}

impl Point2i {
    /// The pixel as a point.
    pub fn to_point(self) -> (r: Point2f)
        ensures
            r == pixel_point(self),
    {
        Point2f { x: F32::from_whole(self.x), y: F32::from_whole(self.y) }
    }
}

/// Whether a character has the White_Space property of Unicode.
pub open spec fn is_white_space(c: char) -> bool {
    let u = c as u32;
    ||| 0x9 <= u <= 0xd
    ||| u == 0x20
    ||| u == 0x85
    ||| u == 0xa0
    ||| u == 0x1680
    ||| 0x2000 <= u <= 0x200a
    ||| u == 0x2028
    ||| u == 0x2029
    ||| u == 0x202f
    ||| u == 0x205f
    ||| u == 0x3000
}

/// Whether a character has the White_Space property of Unicode.
fn white_space(c: char) -> (r: bool)
    ensures
        r == is_white_space(c),
{
    let u: u32 = c as u32;
    (0x9 <= u && u <= 0xd) || u == 0x20 || u == 0x85 || u == 0xa0 || u == 0x1680 || (0x2000 <= u && u
        <= 0x200a) || u == 0x2028 || u == 0x2029 || u == 0x202f || u == 0x205f || u == 0x3000
}

/// `s` without the white space that it starts with.
pub open spec fn without_leading(s: Seq<char>) -> Seq<char>
    decreases s.len(),
{
    if s.len() > 0 && is_white_space(s[0]) {
        without_leading(s.skip(1))
    } else {
        s
    }
}

/// `s` without the white space that it ends in.
pub open spec fn without_trailing(s: Seq<char>) -> Seq<char>
    decreases s.len(),
{
    if s.len() > 0 && is_white_space(s.last()) {
        without_trailing(s.drop_last())
    } else {
        s
    }
}

/// `s` without leading and trailing white space.
pub open spec fn trimmed(s: Seq<char>) -> Seq<char> {
    without_trailing(without_leading(s))
}

/// The part of `s` between two positions, without leading and trailing white space.
fn trim_between(s: &str, from: usize, to: usize) -> (r: &str)
    requires
        from <= to <= s@.len(),
    ensures
        r@ == trimmed(s@.subrange(from as int, to as int)),
{
    let ghost part = s@.subrange(from as int, to as int);
    let mut start: usize = from;
    while start < to && white_space(s.get_char(start))
        invariant
            from <= start <= to <= s@.len(),
            part == s@.subrange(from as int, to as int),
            without_leading(part) == without_leading(s@.subrange(start as int, to as int)),
        decreases to - start,
    {
        assert(s@.subrange(start as int, to as int).skip(1) =~= s@.subrange(start + 1, to as int));
        start += 1;
    }
    let ghost rest = s@.subrange(start as int, to as int);
    assert(without_leading(part) == rest);
    let mut end: usize = to;
    while start < end && white_space(s.get_char(end - 1))
        invariant
            start <= end <= to <= s@.len(),
            rest == s@.subrange(start as int, to as int),
            without_trailing(rest) == without_trailing(s@.subrange(start as int, end as int)),
        decreases end,
    {
        assert(s@.subrange(start as int, end as int).drop_last() =~= s@.subrange(start as int, end - 1));
        end -= 1;
    }
    s.substring_char(start, end)
}

/// `k` is the position of the first comma of `s`.
pub open spec fn first_comma(s: Seq<char>, k: int) -> bool {
    &&& 0 <= k < s.len()
    &&& s[k] == ','
    &&& forall|j: int| 0 <= j < k ==> s[j] != ','
}

/// The reply to a text without a comma.
pub open spec fn pair_expected(s: Seq<char>) -> Seq<char> {
    "expected `x,y` (mm), got `"@ + s + "`"@
}

/// The reply to a text one of whose halves is not a coordinate.
pub open spec fn invalid_half(lead: Seq<char>, s: Seq<char>, cause: Seq<char>) -> Seq<char> {
    lead + s + "`: "@ + cause
}

/// `outcome` is what the coordinate parser may make of the characters `half`.
pub open spec fn reads<P: Fn(&str) -> Result<F32, String>>(
    parse: P,
    half: Seq<char>,
    outcome: Result<F32, String>,
) -> bool {
    exists|text: &str| text@ == half && #[trigger] call_ensures(parse, (text,), outcome)
}

/// What parsing `s`, whose first comma stands at `k`, may return.
pub open spec fn board_point<P: Fn(&str) -> Result<F32, String>>(
    parse: P,
    s: Seq<char>,
    k: int,
    r: Result<Point2f, String>,
) -> bool {
    exists|x: Result<F32, String>|
        {
            &&& #[trigger] reads(parse, trimmed(s.subrange(0, k)), x)
            &&& match x {
                Err(cause) => r is Err && r->Err_0@ == invalid_half("invalid x in `"@, s, cause@),
                Ok(x) => exists|y: Result<F32, String>|
                    {
                        &&& #[trigger] reads(parse, trimmed(s.subrange(k + 1, s.len() as int)), y)
                        &&& match y {
                            Err(cause) => r is Err && r->Err_0@ == invalid_half(
                                "invalid y in `"@,
                                s,
                                cause@,
                            ),
                            Ok(y) => r == Ok::<Point2f, String>(Point2f { x, y }),
                        }
                    },
            }
        }
}

/// The message for a half that is not a coordinate.
fn invalid_half_message(lead: &str, s: &str, cause: &str) -> (r: String)
    ensures
        r@ == invalid_half(lead@, s@, cause@),
{
    let mut message = String::new();
    message.append(lead);
    message.append(s);
    message.append("`: ");
    message.append(cause);
    message
}

/// Parse an `x,y` pair of millimetres.
///
/// `parse` reads one coordinate; it is given the two halves around the first
/// comma, without surrounding white space, x before y, and y only once x was
/// read.
pub fn parse_board_point_mm<P: Fn(&str) -> Result<F32, String>>(s: &str, parse: P) -> (r: Result<
    Point2f,
    String,
>)
    requires
        forall|text: &str| call_requires(parse, (text,)),
    ensures
        !s@.contains(',') ==> r is Err && r->Err_0@ == pair_expected(s@),
        forall|k: int| first_comma(s@, k) ==> #[trigger] board_point(parse, s@, k, r),
{
    let n: usize = s.unicode_len();
    let mut k: usize = 0;
    while k < n && s.get_char(k) != ','
        invariant
            k <= n,
            n == s@.len(),
            forall|j: int| 0 <= j < k ==> s@[j] != ',',
        decreases n - k,
    {
        k += 1;
    }
    if k == n {
        let mut message = String::new();
        message.append("expected `x,y` (mm), got `");
        message.append(s);
        message.append("`");
        return Err(message);
    }
    assert(forall|j: int| first_comma(s@, j) ==> j == k);
    let x_text = trim_between(s, 0, k);
    let x_read = parse(x_text);
    assert(reads(parse, trimmed(s@.subrange(0, k as int)), x_read));
    let x = match x_read {
        Ok(x) => x,
        Err(cause) => {
            return Err(invalid_half_message("invalid x in `", s, cause.as_str()));
        },
    };
    let y_text = trim_between(s, k + 1, n);
    let y_read = parse(y_text);
    assert(reads(parse, trimmed(s@.subrange(k + 1, s@.len() as int)), y_read));
    match y_read {
        Ok(y) => Ok(Point2f { x, y }),
        Err(cause) => Err(invalid_half_message("invalid y in `", s, cause.as_str())),
    }
}

// ---- laws ----

/// A text without white space is left as it is.
proof fn lemma_nothing_to_trim(s: Seq<char>)
    requires
        forall|i: int| 0 <= i < s.len() ==> !is_white_space(#[trigger] s[i]),
    ensures
        trimmed(s) == s,
{
    if s.len() > 0 {
        assert(!is_white_space(s[0]));
        assert(!is_white_space(s[s.len() - 1]));
    }
}

/// White space in front of a text and behind it is dropped.
proof fn lemma_trims_around(before: Seq<char>, s: Seq<char>, after: Seq<char>)
    requires
        forall|i: int| 0 <= i < before.len() ==> is_white_space(#[trigger] before[i]),
        forall|i: int| 0 <= i < s.len() ==> !is_white_space(#[trigger] s[i]),
        forall|i: int| 0 <= i < after.len() ==> is_white_space(#[trigger] after[i]),
    ensures
        trimmed(before + s + after) == s,
    decreases before.len() + after.len(),
{
    let whole = before + s + after;
    if before.len() > 0 {
        assert(whole[0] == before[0]);
        assert(whole.skip(1) =~= before.skip(1) + s + after);
        lemma_trims_around(before.skip(1), s, after);
    } else if after.len() > 0 {
        if s.len() > 0 {
            assert(whole[0] == s[0]);
            let rest = before + s + after.drop_last();
            assert(rest[0] == s[0]);
            assert(whole.last() == after.last());
            assert(after.last() == after[after.len() - 1]);
            assert(whole.drop_last() =~= rest);
            assert(without_leading(whole) == whole && without_leading(rest) == rest);
            lemma_trims_around(before, s, after.drop_last());
        } else {
            assert(whole =~= after);
            assert(whole[0] == after[0]);
            assert(whole.skip(1) =~= before + s + after.skip(1));
            lemma_trims_around(before, s, after.skip(1));
        }
    } else {
        assert(whole =~= s);
        lemma_nothing_to_trim(s);
    }
}

/// Parsing undoes printing: where two coordinates are printed without white space,
/// the first without a comma, and the coordinate parser reads either text back, a
/// pair that is written as the first text, a comma and the second, with any white
/// space around them, is read back as the two coordinates.
pub proof fn law_parsing_undoes_printing<P: Fn(&str) -> Result<F32, String>>(
    parse: P,
    x_text: Seq<char>,
    y_text: Seq<char>,
    spaces: (Seq<char>, Seq<char>, Seq<char>, Seq<char>),
    p: Point2f,
    s: &str,
    r: Result<Point2f, String>,
)
    requires
        forall|i: int|
            0 <= i < x_text.len() ==> !is_white_space(#[trigger] x_text[i]) && x_text[i] != ',',
        forall|i: int| 0 <= i < y_text.len() ==> !is_white_space(#[trigger] y_text[i]),
        forall|i: int| 0 <= i < spaces.0.len() ==> is_white_space(#[trigger] spaces.0[i]),
        forall|i: int| 0 <= i < spaces.1.len() ==> is_white_space(#[trigger] spaces.1[i]),
        forall|i: int| 0 <= i < spaces.2.len() ==> is_white_space(#[trigger] spaces.2[i]),
        forall|i: int| 0 <= i < spaces.3.len() ==> is_white_space(#[trigger] spaces.3[i]),
        forall|outcome: Result<F32, String>| #[trigger]
            reads(parse, x_text, outcome) ==> outcome == Ok::<F32, String>(p.x),
        forall|outcome: Result<F32, String>| #[trigger]
            reads(parse, y_text, outcome) ==> outcome == Ok::<F32, String>(p.y),
        s@ == spaces.0 + x_text + spaces.1 + seq![','] + spaces.2 + y_text + spaces.3,
        forall|k: int| first_comma(s@, k) ==> #[trigger] board_point(parse, s@, k, r),
    ensures
        r == Ok::<Point2f, String>(p),
{
    let left = spaces.0 + x_text + spaces.1;
    let right = spaces.2 + y_text + spaces.3;
    let k = left.len() as int;
    assert(s@ =~= left + seq![','] + right);
    assert forall|j: int| 0 <= j < k implies s@[j] != ',' by {
        if j < spaces.0.len() {
            assert(s@[j] == spaces.0[j]);
        } else if j < spaces.0.len() + x_text.len() {
            assert(s@[j] == x_text[j - spaces.0.len()]);
        } else {
            assert(s@[j] == spaces.1[j - spaces.0.len() - x_text.len()]);
        }
    }
    assert(first_comma(s@, k));
    assert(board_point(parse, s@, k, r));
    assert(s@.subrange(0, k) =~= left);
    assert(s@.subrange(k + 1, s@.len() as int) =~= right);
    lemma_trims_around(spaces.0, x_text, spaces.1);
    lemma_trims_around(spaces.2, y_text, spaces.3);
}

/// A pixel becomes a point with the nearest numbers as coordinates.
pub proof fn law_point_of_pixel(pixel: Point2i, r: Point2f)
    requires
        call_ensures(Point2i::to_point, (pixel,), r),
    ensures
        whole_rounds_to(pixel.x as int, r.x),
        whole_rounds_to(pixel.y as int, r.y),
{
    law_nearest_single_rounds(pixel.x);
    law_nearest_single_rounds(pixel.y);
}

/// What is read of a pair of texts: both coordinates where both can be read, and
/// otherwise a complaint about the first that cannot, which holds the whole input and
/// the coordinate parser's own words. The first comma parts the texts, and white space
/// around them is dropped.
pub proof fn law_pair_is_read<P: Fn(&str) -> Result<F32, String>>(
    parse: P,
    x_text: Seq<char>,
    y_text: Seq<char>,
    spaces: (Seq<char>, Seq<char>, Seq<char>, Seq<char>),
    x: Result<F32, String>,
    y: Result<F32, String>,
    s: &str,
    r: Result<Point2f, String>,
)
    requires
        forall|k: int| first_comma(s@, k) ==> #[trigger] board_point(parse, s@, k, r),
        forall|i: int|
            0 <= i < x_text.len() ==> !is_white_space(#[trigger] x_text[i]) && x_text[i] != ',',
        forall|i: int| 0 <= i < y_text.len() ==> !is_white_space(#[trigger] y_text[i]),
        forall|i: int| 0 <= i < spaces.0.len() ==> is_white_space(#[trigger] spaces.0[i]),
        forall|i: int| 0 <= i < spaces.1.len() ==> is_white_space(#[trigger] spaces.1[i]),
        forall|i: int| 0 <= i < spaces.2.len() ==> is_white_space(#[trigger] spaces.2[i]),
        forall|i: int| 0 <= i < spaces.3.len() ==> is_white_space(#[trigger] spaces.3[i]),
        forall|text: &str, outcome: Result<F32, String>|
            text@ == x_text && #[trigger] call_ensures(parse, (text,), outcome) ==> outcome == x,
        forall|text: &str, outcome: Result<F32, String>|
            text@ == y_text && #[trigger] call_ensures(parse, (text,), outcome) ==> outcome == y,
        s@ == spaces.0 + x_text + spaces.1 + seq![','] + spaces.2 + y_text + spaces.3,
    ensures
        x is Ok && y is Ok ==> r is Ok && r->Ok_0.x == x->Ok_0 && r->Ok_0.y == y->Ok_0,
        x is Err ==> r is Err && r->Err_0@ == "invalid x in `"@ + s@ + "`: "@ + x->Err_0@,
        x is Ok && y is Err ==> r is Err && r->Err_0@ == "invalid y in `"@ + s@ + "`: "@
            + y->Err_0@,
{
    let left = spaces.0 + x_text + spaces.1;
    let right = spaces.2 + y_text + spaces.3;
    let k = left.len() as int;
    assert(s@ =~= left + seq![','] + right);
    assert forall|j: int| 0 <= j < k implies s@[j] != ',' by {
        if j < spaces.0.len() {
            assert(s@[j] == spaces.0[j]);
        } else if j < spaces.0.len() + x_text.len() {
            assert(s@[j] == x_text[j - spaces.0.len()]);
        } else {
            assert(s@[j] == spaces.1[j - spaces.0.len() - x_text.len()]);
        }
    }
    assert(first_comma(s@, k));
    assert(board_point(parse, s@, k, r));
    assert(s@.subrange(0, k) =~= left);
    assert(s@.subrange(k + 1, s@.len() as int) =~= right);
    lemma_trims_around(spaces.0, x_text, spaces.1);
    lemma_trims_around(spaces.2, y_text, spaces.3);
}

/// What has no comma is no pair.
pub proof fn law_pair_has_a_comma<P: Fn(&str) -> Result<F32, String>>(
    parse: P,
    s: &str,
    r: Result<Point2f, String>,
)
    requires
        call_ensures(parse_board_point_mm::<P>, (s, parse), r),
        forall|i: int| 0 <= i < s@.len() ==> s@[i] != ',',
    ensures
        r is Err,
        r->Err_0@ == "expected `x,y` (mm), got `"@ + s@ + "`"@,
{
    assert(!s@.contains(','));
}

/// White space is the space, the tab and the other controls that end a line or a page,
/// and the spaces and separators of other scripts; no other character below 128 is.
pub proof fn law_white_space(c: char)
    ensures
        (c as u32) < 128 ==> (is_white_space(c) <==> {
            ||| c == ' '
            ||| c == '\t'
            ||| c == '\n'
            ||| c == '\r'
            ||| c == '\u{b}'
            ||| c == '\u{c}'
        }),
        (c as u32) >= 128 ==> (is_white_space(c) <==> {
            ||| c == '\u{85}'
            ||| c == '\u{a0}'
            ||| c == '\u{1680}'
            ||| '\u{2000}' <= c <= '\u{200a}'
            ||| c == '\u{2028}'
            ||| c == '\u{2029}'
            ||| c == '\u{202f}'
            ||| c == '\u{205f}'
            ||| c == '\u{3000}'
        }),
{
}

} // verus!
