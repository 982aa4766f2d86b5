//! Debug visualization: colors, where overlays and images go, and where they are
//! saved.

use vstd::prelude::*;
use vstd::string::*;

use crate::text::{
    decimal, join_path, joined_path, law_decimal_reads_back, push_decimal, reads_as,
};
use crate::types::{CameraMeshPointPair, Point2i, Rect, Size};

verus! {

// ---- colors ----

/// A color, by the intensities of its channels.
#[derive(Clone, Copy, Debug, PartialEq, Eq, Structural)]
pub struct Color {
    pub blue: u8,
    pub green: u8,
    pub red: u8,
}

/// The palette: red, green, blue, yellow, magenta, cyan.
pub open spec fn palette() -> Seq<Color> {
    seq![
        Color { blue: 0, green: 0, red: 255 },
        Color { blue: 0, green: 255, red: 0 },
        Color { blue: 255, green: 0, red: 0 },
        Color { blue: 0, green: 255, red: 255 },
        Color { blue: 255, green: 0, red: 255 },
        Color { blue: 255, green: 255, red: 0 },
    ]
}

/// Pick a distinct color for index `idx`, cycling through a fixed palette.
pub fn get_opencv_color(idx: usize) -> (color: Color)
    ensures
        color == palette()[idx as int % 6],
{
    match idx % 6 {
        0 => Color { blue: 0, green: 0, red: 255 },
        1 => Color { blue: 0, green: 255, red: 0 },
        2 => Color { blue: 255, green: 0, red: 0 },
        3 => Color { blue: 0, green: 255, red: 255 },
        4 => Color { blue: 255, green: 0, red: 255 },
        _ => Color { blue: 255, green: 255, red: 0 },
    }
}

/// The colors of overlapping checkerboards: blue, green, red.
pub open spec fn checker_palette() -> Seq<Color> {
    seq![
        Color { blue: 255, green: 0, red: 0 },
        Color { blue: 0, green: 255, red: 0 },
        Color { blue: 0, green: 0, red: 255 },
    ]
}

/// Distinct color per projector so that overlapping checkerboards are visible.
pub fn checker_color(projector_id: usize) -> (color: Color)
    ensures
        color == checker_palette()[projector_id as int % 3],
{
    match projector_id % 3 {
        0 => Color { blue: 255, green: 0, red: 0 },
        1 => Color { blue: 0, green: 255, red: 0 },
        _ => Color { blue: 0, green: 0, red: 255 },
    }
}

/// Of up to six lines, no two have the same color.
pub proof fn law_line_colors_distinct(i: int, j: int)
    requires
        0 <= i,
        0 <= j,
        i % 6 != j % 6,
    ensures
        palette()[i % 6] != palette()[j % 6],
{
}

/// Of up to three projectors, no two have checkerboards of the same color, and
/// no two colors share a channel.
pub proof fn law_checker_colors_distinct(i: int, j: int)
    requires
        0 <= i,
        0 <= j,
        i % 3 != j % 3,
    ensures
        ({
            let (a, b) = (checker_palette()[i % 3], checker_palette()[j % 3]);
            &&& a.blue == 0 || b.blue == 0
            &&& a.green == 0 || b.green == 0
            &&& a.red == 0 || b.red == 0
            &&& a != b
        }),
{
}

// ---- output paths ----

/// A digit.
pub open spec fn is_digit(c: char) -> bool {
    '0' <= c <= '9'
}

/// The characters of a time stamp: digits, and what stands between them.
pub open spec fn stamp_char(c: char) -> bool {
    is_digit(c) || c == '-' || c == '+' || c == '.'
}

/// Whether a text is made of the characters of a time stamp.
pub open spec fn stamp_text(s: Seq<char>) -> bool {
    forall|i: int| 0 <= i < s.len() ==> stamp_char(#[trigger] s[i])
}

/// Whether a text is a date and a time to the second: a year of at least four
/// characters, the first of which is a sign where the year has no four digits; two
/// digits each for month and day; `-`; two digits each for hour, minute and second.
pub open spec fn second_stamp(s: Seq<char>) -> bool {
    &&& s.len() >= 15
    &&& s[s.len() - 7] == '-'
    &&& forall|i: int| 1 <= i < s.len() - 7 ==> is_digit(#[trigger] s[i])
    &&& forall|i: int| s.len() - 6 <= i < s.len() ==> is_digit(#[trigger] s[i])
}

/// Whether a text is a date and a time to the second, `.`, and six digits of the
/// fraction.
pub open spec fn micro_stamp(s: Seq<char>) -> bool {
    &&& s.len() >= 22
    &&& second_stamp(s.take(s.len() - 7))
    &&& s[s.len() - 7] == '.'
    &&& forall|i: int| s.len() - 6 <= i < s.len() ==> is_digit(#[trigger] s[i])
}

/// Calls `chrono::Local::now` and formats the time with `DateTime::format`, to the
/// second or with six digits of its fraction. What time it is depends on the
/// clock and the time zone. Of the text it is claimed which characters it is made
/// of, and where they stand: month, day, hour, minute and second are two digits
/// each, the fraction is six, and the year is four, or a sign and at least four.
#[verifier::external_body]
fn local_time(format: &str) -> (stamp: String)
    requires
        format@ == "%Y%m%d-%H%M%S"@ || format@ == "%Y%m%d-%H%M%S%.6f"@,
    ensures
        stamp_text(stamp@),
        format@ == "%Y%m%d-%H%M%S"@ ==> second_stamp(stamp@),
        format@ == "%Y%m%d-%H%M%S%.6f"@ ==> micro_stamp(stamp@),
{
    chrono::Local::now().format(format).to_string()
}

/// The output directory of the run that began at `stamp`.
pub fn output_dir(base: &str, stamp: &str) -> (path: String)
    ensures
        path@ == joined_path(base@, stamp@),
{
    join_path(base, stamp)
}

/// Build a fresh per-run output directory path `{base}/{timestamp}`.
///
/// The directory itself is not created.
pub fn timestamped_output_dir(base: &str) -> (path: String)
    ensures
        exists|stamp: Seq<char>|
            stamp_text(stamp) && second_stamp(stamp) && path@ == #[trigger] joined_path(
                base@,
                stamp,
            ),
{
    let stamp = local_time("%Y%m%d-%H%M%S");
    let path = output_dir(base, stamp.as_str());
    assert(path@ == joined_path(base@, stamp@));
    path
}

/// The path of the image that was captured at `stamp`.
pub fn image_path(dir: &str, stamp: &str) -> (path: String)
    ensures
        path@ == joined_path(dir@, stamp@ + ".png"@),
{
    let mut name = String::new();
    name.append(stamp);
    name.append(".png");
    assert(name@ =~= stamp@ + ".png"@);
    join_path(dir, name.as_str())
}

/// Path of a debug image in `dir`, with a timestamped file name. The stamp has
/// sub-second precision, so that rapid captures do not collide.
pub fn debug_image_path(dir: &str) -> (path: String)
    ensures
        exists|stamp: Seq<char>|
            stamp_text(stamp) && micro_stamp(stamp) && path@ == #[trigger] joined_path(
                dir@,
                stamp + ".png"@,
            ),
{
    let stamp = local_time("%Y%m%d-%H%M%S%.6f");
    let path = image_path(dir, stamp.as_str());
    assert(path@ == joined_path(dir@, stamp@ + ".png"@));
    path
}

/// Path of the frame that an embedded camera captured, in `dir`.
pub fn camera_frame_path(dir: &str, camera: usize) -> (path: String)
    ensures
        path@ == joined_path(dir@, decimal(camera as nat) + ".png"@),
{
    let mut name = String::new();
    push_decimal(&mut name, camera as u64);
    name.append(".png");
    assert(name@ =~= decimal(camera as nat) + ".png"@);
    join_path(dir, name.as_str())
}

/// A time stamp names a direct child of its directory: it has no separator.
pub proof fn law_stamp_stays_in_dir(base: Seq<char>, stamp: Seq<char>)
    requires
        stamp_text(stamp),
    ensures
        !stamp.contains('/'),
        joined_path(base, stamp).len() >= stamp.len(),
        joined_path(base, stamp).skip(joined_path(base, stamp).len() - stamp.len()) == stamp,
{
    if stamp.contains('/') {
        let i = choose|i: int| 0 <= i < stamp.len() && stamp[i] == '/';
        assert(stamp_char(stamp[i]));
    }
    assert(joined_path(base, stamp).skip(joined_path(base, stamp).len() - stamp.len()) =~= stamp);
}

/// Different stamps give different directories.
pub proof fn law_runs_kept_apart(base: Seq<char>, a: Seq<char>, b: Seq<char>)
    requires
        joined_path(base, a) == joined_path(base, b),
    ensures
        a == b,
{
    let path = joined_path(base, a);
    let n = path.len() - a.len();
    assert(path.skip(n) =~= a);
    assert(path.skip(n) =~= b);
}

/// Captures with different stamps, be it in the last digit of the fraction, give
/// different image files.
pub proof fn law_captures_kept_apart(dir: Seq<char>, a: Seq<char>, b: Seq<char>)
    requires
        joined_path(dir, a + ".png"@) == joined_path(dir, b + ".png"@),
    ensures
        a == b,
{
    law_runs_kept_apart(dir, a + ".png"@, b + ".png"@);
    let name = a + ".png"@;
    assert(name.take(a.len() as int) =~= a);
    assert(name.take(a.len() as int) =~= b);
}

// ---- overlays ----

/// Radius of the dot that marks a decoded point.
pub const MARK_RADIUS: i32 = 10;

/// How a decoded point is marked: a dot, and a label below-right of it.
#[derive(Clone, Copy, Debug, PartialEq, Eq, Structural)]
pub struct PointMark {
    pub center: Point2i,
    pub label_origin: Point2i,
}

/// The mark of a decoded point.
pub open spec fn mark_of(pair: CameraMeshPointPair) -> PointMark {
    let at = pair.projector_position_in_embedded_camera;
    PointMark {
        center: at,
        label_origin: Point2i { x: (at.x + 5) as i32, y: (at.y + 15) as i32 },
    }
}

/// The marks of decoded point pairs, in order.
pub fn generate_point_pairs_debug(points: &Vec<CameraMeshPointPair>) -> (marks: Vec<PointMark>)
    requires
        forall|i: int|
            0 <= i < points@.len() ==> {
                let at = (#[trigger] points@[i]).projector_position_in_embedded_camera;
                at.x + 5 <= i32::MAX && at.y + 15 <= i32::MAX
            },
    ensures
        marks@ == points@.map_values(|pair: CameraMeshPointPair| mark_of(pair)),
{
    let mut marks: Vec<PointMark> = Vec::new();
    let mut i: usize = 0;
    while i < points.len()
        invariant
            forall|j: int|
                0 <= j < points@.len() ==> {
                    let at = (#[trigger] points@[j]).projector_position_in_embedded_camera;
                    at.x + 5 <= i32::MAX && at.y + 15 <= i32::MAX
                },
            i <= points.len(),
            marks@.len() == i,
            forall|j: int| 0 <= j < i ==> #[trigger] marks@[j] == mark_of(points@[j]),
        decreases points.len() - i,
    {
        let at = points[i].projector_position_in_embedded_camera;
        marks.push(
            PointMark { center: at, label_origin: Point2i { x: at.x + 5, y: at.y + 15 } },
        );
        i += 1;
    }
    assert(marks@ =~= points@.map_values(|pair: CameraMeshPointPair| mark_of(pair)));
    marks
}

/// Where the header goes: the top left, with a margin, below the height of its
/// text.
pub fn header_origin(text_height: i32) -> (r: Point2i)
    requires
        text_height + 10 <= i32::MAX,
    ensures
        r.x == 10,
        r.y == text_height + 10,
{
    Point2i { x: 10, y: text_height + 10 }
}

// ---- the grid of images ----

/// Width of the white border around and between the images, in pixels.
pub const BORDER: i32 = 3;

/// Where up to four images of one size go.
#[derive(Debug)]
pub struct ImageGrid {
    /// Size of the composed image.
    pub canvas: Size,
    /// The place of each image, by its id.
    pub cells: Vec<Rect>,
}

/// The place of image `id`: two in a row.
pub open spec fn image_cell(single_size: Size, id: int) -> Rect {
    Rect {
        x: (BORDER + (id % 2) * (single_size.width + BORDER)) as i32,
        y: (BORDER + (id / 2) * (single_size.height + BORDER)) as i32,
        width: single_size.width,
        height: single_size.height,
    }
}

/// Compose up to four images into a 2x2 grid with white borders.
pub fn make_grid_image(single_size: Size) -> (r: ImageGrid)
    requires
        i32::MIN <= 2 * single_size.width,
        i32::MIN <= 2 * single_size.height,
        2 * single_size.width + 3 * BORDER <= i32::MAX,
        2 * single_size.height + 3 * BORDER <= i32::MAX,
    ensures
        r.canvas.width == 2 * single_size.width + 3 * BORDER,
        r.canvas.height == 2 * single_size.height + 3 * BORDER,
        r.cells@ == Seq::new(4, |id: int| image_cell(single_size, id)),
{
    let canvas = Size {
        width: single_size.width * 2 + BORDER * 3,
        height: single_size.height * 2 + BORDER * 3,
    };
    let mut cells: Vec<Rect> = Vec::new();
    let mut row: i32 = 0;
    while row < 2
        invariant
            0 <= row <= 2,
            i32::MIN <= 2 * single_size.width,
            i32::MIN <= 2 * single_size.height,
            2 * single_size.width + 3 * BORDER <= i32::MAX,
            2 * single_size.height + 3 * BORDER <= i32::MAX,
            cells@.len() == 2 * row,
            forall|id: int| 0 <= id < 2 * row ==> #[trigger] cells@[id] == image_cell(single_size, id),
        decreases 2 - row,
    {
        let down: i32 = if row == 0 {
            0
        } else {
            single_size.height + BORDER
        };
        let y: i32 = BORDER + down;
        cells.push(
            Rect { x: BORDER, y, width: single_size.width, height: single_size.height },
        );
        cells.push(
            Rect {
                x: BORDER + (single_size.width + BORDER),
                y,
                width: single_size.width,
                height: single_size.height,
            },
        );
        proof {
            assert((2 * row) / 2 == row && (2 * row) % 2 == 0);
            assert((2 * row + 1) / 2 == row && (2 * row + 1) % 2 == 1);
            assert(row * (single_size.height + BORDER) == down) by (nonlinear_arith)
                requires
                    row == 0 && down == 0 || row == 1 && down == single_size.height + BORDER,
            ;
            assert(0 * (single_size.width + BORDER) == 0) by (nonlinear_arith);
            assert(1 * (single_size.width + BORDER) == single_size.width + BORDER)
                by (nonlinear_arith);
        }
        row += 1;
    }
    assert(cells@ =~= Seq::new(4, |id: int| image_cell(single_size, id)));
    ImageGrid { canvas, cells }
}

/// The images of a grid lie inside the canvas, a border away from its edges, and
/// two of them are a border apart, side by side or one above the other.
pub proof fn law_grid_images_apart(single_size: Size, i: int, j: int)
    requires
        0 <= single_size.width,
        0 <= single_size.height,
        2 * single_size.width + 3 * BORDER <= i32::MAX,
        2 * single_size.height + 3 * BORDER <= i32::MAX,
        0 <= i < j < 4,
    ensures
        ({
            let (a, b) = (image_cell(single_size, i), image_cell(single_size, j));
            &&& BORDER <= a.x && a.x + a.width + BORDER <= 2 * single_size.width + 3 * BORDER
            &&& BORDER <= a.y && a.y + a.height + BORDER <= 2 * single_size.height + 3 * BORDER
            &&& BORDER <= b.x && b.x + b.width + BORDER <= 2 * single_size.width + 3 * BORDER
            &&& BORDER <= b.y && b.y + b.height + BORDER <= 2 * single_size.height + 3 * BORDER
            &&& {
                ||| a.x + a.width + BORDER <= b.x
                ||| b.x + b.width + BORDER <= a.x
                ||| a.y + a.height + BORDER <= b.y
            }
        }),
{
    let (w, h) = (single_size.width + BORDER, single_size.height + BORDER);
    lemma_half(i, w, h);
    lemma_half(j, w, h);
}

/// The row and column of an image, times the steps between images.
proof fn lemma_half(id: int, w: int, h: int)
    requires
        0 <= id < 4,
    ensures
        (id % 2) * w == if id == 1 || id == 3 {
            w
        } else {
            0
        },
        (id / 2) * h == if id >= 2 {
            h
        } else {
            0
        },
{
    assert(0 * w == 0 && 1 * w == w && 0 * h == 0 && 1 * h == h) by (nonlinear_arith);
    if id == 0 {
        assert(id % 2 == 0 && id / 2 == 0);
    } else if id == 1 {
        assert(id % 2 == 1 && id / 2 == 0);
    } else if id == 2 {
        assert(id % 2 == 0 && id / 2 == 1);
    } else {
        assert(id % 2 == 1 && id / 2 == 1);
    }
}

/// Size of the window that debug images are shown in.
pub fn debug_window_size() -> (r: Size)
    ensures
        r == (Size { width: 1280, height: 800 }),
{
    Size { width: 1280, height: 800 }
}

/// The colors of lines come round after six: red, green, blue, and then their mixtures
/// of two, yellow, magenta and cyan, at full intensity.
pub proof fn law_line_colors(idx: usize, color: Color)
    requires
        call_ensures(get_opencv_color, (idx,), color),
    ensures
        color.red == if idx % 6 == 0 || idx % 6 == 3 || idx % 6 == 4 {
            255u8
        } else {
            0
        },
        color.green == if idx % 6 == 1 || idx % 6 == 3 || idx % 6 == 5 {
            255u8
        } else {
            0
        },
        color.blue == if idx % 6 == 2 || idx % 6 == 4 || idx % 6 == 5 {
            255u8
        } else {
            0
        },
{
}

/// The colors of checkerboards come round after three: blue, green, red.
pub proof fn law_checker_colors(projector_id: usize, color: Color)
    requires
        call_ensures(checker_color, (projector_id,), color),
    ensures
        color.blue == if projector_id % 3 == 0 {
            255u8
        } else {
            0
        },
        color.green == if projector_id % 3 == 1 {
            255u8
        } else {
            0
        },
        color.red == if projector_id % 3 == 2 {
            255u8
        } else {
            0
        },
{
}

/// Every pair is marked, in order, at the pixel in the camera image, and its label
/// stands 5 right of it and 15 below.
pub proof fn law_marks_stand_at_pixels(
    points: &Vec<CameraMeshPointPair>,
    marks: Vec<PointMark>,
    i: int,
)
    requires
        call_ensures(generate_point_pairs_debug, (points,), marks),
        0 <= i < points@.len(),
        points@[i].projector_position_in_embedded_camera.x + 5 <= i32::MAX,
        points@[i].projector_position_in_embedded_camera.y + 15 <= i32::MAX,
    ensures
        marks@.len() == points@.len(),
        marks@[i].center.x == points@[i].projector_position_in_embedded_camera.x,
        marks@[i].center.y == points@[i].projector_position_in_embedded_camera.y,
        marks@[i].label_origin.x == marks@[i].center.x + 5,
        marks@[i].label_origin.y == marks@[i].center.y + 15,
{
}

/// Four images stand in two rows of two, in reading order, each of its full size, with
/// a border of 3 around all of them and between them.
pub proof fn law_grid_images(single_size: Size, r: ImageGrid)
    requires
        call_ensures(make_grid_image, (single_size,), r),
        i32::MIN <= 2 * single_size.width,
        i32::MIN <= 2 * single_size.height,
        2 * single_size.width + 9 <= i32::MAX,
        2 * single_size.height + 9 <= i32::MAX,
    ensures
        r.canvas.width == 2 * single_size.width + 9,
        r.canvas.height == 2 * single_size.height + 9,
        r.cells@.len() == 4,
        forall|k: int|
            0 <= k < 4 ==> (#[trigger] r.cells@[k]).width == single_size.width && r.cells@[k].height
                == single_size.height,
        r.cells@[0].x == 3,
        r.cells@[1].x == r.cells@[0].x + single_size.width + 3,
        r.cells@[2].x == r.cells@[0].x,
        r.cells@[3].x == r.cells@[1].x,
        r.cells@[0].y == 3,
        r.cells@[1].y == r.cells@[0].y,
        r.cells@[2].y == r.cells@[0].y + single_size.height + 3,
        r.cells@[3].y == r.cells@[2].y,
{
    let (w, h) = (single_size.width + BORDER, single_size.height + BORDER);
    assert((0int % 2) * w == 0 && (1int % 2) * w == w && (2int % 2) * w == 0 && (3int % 2) * w == w)
        by (nonlinear_arith);
    assert((0int / 2) * h == 0 && (1int / 2) * h == 0 && (2int / 2) * h == h && (3int / 2) * h == h)
        by (nonlinear_arith);
    assert(r.cells@[0] == image_cell(single_size, 0));
    assert(r.cells@[1] == image_cell(single_size, 1));
    assert(r.cells@[2] == image_cell(single_size, 2));
    assert(r.cells@[3] == image_cell(single_size, 3));
}

/// The frame of a camera is saved in the directory, under the camera's number.
pub proof fn law_camera_frame_path(dir: &str, camera: usize, path: String)
    requires
        call_ensures(camera_frame_path, (dir, camera), path),
    ensures
        path@.take(dir@.len() as int) == dir@,
        path@.skip(path@.len() - 4) == ".png"@,
        ({
            let from = if dir@.len() == 0 || dir@[dir@.len() - 1] == '/' {
                dir@.len() as int
            } else {
                dir@.len() as int + 1
            };
            &&& from > dir@.len() ==> path@[dir@.len() as int] == '/'
            &&& reads_as(path@.subrange(from, path@.len() - 4), camera as nat)
        }),
{
    let from = if dir@.len() == 0 || dir@[dir@.len() - 1] == '/' {
        dir@.len() as int
    } else {
        dir@.len() as int + 1
    };
    reveal_strlit(".png");
    law_decimal_reads_back(camera as nat);
    assert(path@.take(dir@.len() as int) =~= dir@);
    assert(path@.skip(path@.len() - 4) =~= ".png"@);
    assert(path@.subrange(from, path@.len() - 4) =~= decimal(camera as nat));
}

/// An image is saved in the directory, under its stamp.
pub proof fn law_image_path(dir: &str, stamp: &str, path: String, folder: String)
    requires
        call_ensures(image_path, (dir, stamp), path),
        call_ensures(output_dir, (dir, stamp), folder),
    ensures
        folder@.take(dir@.len() as int) == dir@,
        folder@.skip(folder@.len() - stamp@.len()) == stamp@,
        folder@.len() == dir@.len() + stamp@.len() + (if dir@.len() == 0 || dir@[dir@.len() - 1]
            == '/' {
            0int
        } else {
            1
        }),
        dir@.len() > 0 ==> folder@[folder@.len() - stamp@.len() - 1] == '/',
        path@ == folder@ + ".png"@,
{
    assert(folder@.take(dir@.len() as int) =~= dir@);
    assert(folder@.skip(folder@.len() - stamp@.len()) =~= stamp@);
    assert(path@ =~= folder@ + ".png"@);
}

/// A header stands 10 from the left, and its baseline 10 below its own height.
pub proof fn law_header_and_window(text_height: i32, origin: Point2i, window: Size)
    requires
        call_ensures(header_origin, (text_height,), origin),
        call_ensures(debug_window_size, (), window),
    ensures
        origin.x == 10,
        origin.y - text_height == 10,
        window.width == 1280,
        window.height == 800,
{
}

} // verus!
