//! Decisions of the acquisition with the external camera: which projectors are
//! lit when, which corners and lines count, and which pixels are decoded.
//!
//! Three coordinate spaces are in play: projector pixels, external-camera image
//! pixels, and the checkerboard world frame, whose grid spacing is the size of a
//! printed square.

use std::collections::HashMap;

use itertools::Itertools;
use vstd::arithmetic::div_mod::{
    lemma_fundamental_div_mod, lemma_fundamental_div_mod_converse,
};
use vstd::prelude::*;
use vstd::string::*;

use crate::content_projection::Correspondences;
use crate::external_camera::{scene_exposure, Exposure, Scene, Setting};
use crate::float_bits::{
    largest_single, law_nearest_single_rounds, lemma_key_orders, whole_rounds_to, F32,
};
use crate::grid::{extent, grid, grid_of, law_grid_covers, lemma_grid_index};
use crate::listing::lemma_same_members;
use crate::patterns::{full_span, generate_axis_lines, Axis, Stroke};
use crate::text::{decimal, push_decimal};
use crate::types::{pixel_point, CameraId, Point2f, Point2i, Size, Span};

verus! {

/// The key that cancels a retry: `q`.
pub const CANCEL_KEY: i32 = 113;

/// The key that discards an input: `n`.
pub const DISCARD_KEY: i32 = 110;

/// Side length in pixels of the patch that is decoded around a corner.
pub const PATCH_SIZE: i32 = 64;

/// Why the external camera gave no result.
#[derive(Clone, Copy, Debug, PartialEq, Eq, Structural)]
pub enum ExternalError {
    /// No checkerboard was found in the capture.
    BoardNotDetected,
    /// The operator gave up the search for the checkerboard.
    DetectionCancelled,
    /// No projected line was found along an axis.
    NoLines(Axis),
    /// The operator discarded the positions.
    PositionsCancelled,
    /// Of `count` corners that were detected, one was asked for that is not there.
    MissingCorner { index: usize, count: usize },
    /// The operator gave up waiting for the external camera.
    WaitCancelled,
}

impl ExternalError {
    /// The message shown to the operator.
    pub open spec fn text(self) -> Seq<char> {
        match self {
            ExternalError::BoardNotDetected => "Checkerboard was not detected."@,
            ExternalError::DetectionCancelled => "checkerboard detection cancelled by user"@,
            ExternalError::NoLines(Axis::X) => "Couldn't find any lines on X."@,
            ExternalError::NoLines(Axis::Y) => "Couldn't find any lines on Y."@,
            ExternalError::PositionsCancelled => "cancelled this input by user"@,
            ExternalError::MissingCorner { index, count } => "Index: "@ + decimal(index as nat)
                + " out of bounds: 0.."@ + decimal(count as nat) + " (code: StsOutOfRange, -211)"@,
            ExternalError::WaitCancelled => "cancelled while waiting for the external camera"@,
        }
    }

    /// The message shown to the operator.
    pub fn message(self) -> (r: String)
        ensures
            r@ == self.text(),
    {
        let mut out = String::new();
        match self {
            ExternalError::BoardNotDetected => {
                out.append("Checkerboard was not detected.");
            },
            ExternalError::DetectionCancelled => {
                out.append("checkerboard detection cancelled by user");
            },
            ExternalError::NoLines(Axis::X) => {
                out.append("Couldn't find any lines on X.");
            },
            ExternalError::NoLines(Axis::Y) => {
                out.append("Couldn't find any lines on Y.");
            },
            ExternalError::PositionsCancelled => {
                out.append("cancelled this input by user");
            },
            ExternalError::MissingCorner { index, count } => {
                out.append("Index: ");
                push_decimal(&mut out, index as u64);
                out.append(" out of bounds: 0..");
                push_decimal(&mut out, count as u64);
                out.append(" (code: StsOutOfRange, -211)");
            },
            ExternalError::WaitCancelled => {
                out.append("cancelled while waiting for the external camera");
            },
        }
        assert(out@ =~= self.text());
        out
    }
}

// ---- corners ----

/// Whether one image point comes after another: by x, then by y. A coordinate
/// that is not a number comes after nothing.
pub open spec fn point_after(a: Point2f, b: Point2f) -> bool {
    ||| b.x.below(a.x)
    ||| !a.x.nan() && !b.x.nan() && a.x.value() == b.x.value() && b.y.below(a.y)
}

/// The corners of a board from top left to bottom right: reversed where the
/// first comes after the last.
pub open spec fn ordered(corners: Seq<Point2f>) -> Seq<Point2f> {
    if point_after(corners.first(), corners.last()) {
        corners.reverse()
    } else {
        corners
    }
}

/// Whether one image point comes after another.
fn comes_after(a: Point2f, b: Point2f) -> (r: bool)
    ensures
        r == point_after(a, b),
{
    proof {
        lemma_key_orders(a.x, b.x);
    }
    if b.x.less(a.x) {
        true
    } else {
        !a.x.is_nan() && !b.x.is_nan() && a.x.order_key() == b.x.order_key() && b.y.less(a.y)
    }
}

/// Put the corners in order, from top left to bottom right.
pub fn order_corners(corners: Vec<Point2f>) -> (r: Vec<Point2f>)
    requires
        corners@.len() > 0,
    ensures
        r@ == ordered(corners@),
{
    if !comes_after(corners[0], corners[corners.len() - 1]) {
        return corners;
    }
    let n: usize = corners.len();
    let mut reversed: Vec<Point2f> = Vec::new();
    let mut i: usize = 0;
    while i < n
        invariant
            i <= n,
            n == corners@.len(),
            reversed@.len() == i,
            forall|j: int| 0 <= j < i ==> #[trigger] reversed@[j] == corners@[n - 1 - j],
        decreases n - i,
    {
        reversed.push(corners[n - 1 - i]);
        i += 1;
    }
    assert(reversed@ =~= corners@.reverse());
    reversed
}

/// Take the corners of the lit board: an error where it was not found, the
/// ordered corners otherwise.
pub fn accept_corners(found: bool, corners: Vec<Point2f>) -> (r: Result<Vec<Point2f>, ExternalError>)
    requires
        found ==> corners@.len() > 0,
    ensures
        !found ==> r == Err::<Vec<Point2f>, ExternalError>(ExternalError::BoardNotDetected),
        found ==> r is Ok && r->Ok_0@ == ordered(corners@),
{
    if found {
        Ok(order_corners(corners))
    } else {
        Err(ExternalError::BoardNotDetected)
    }
}

/// A step of the capture of the lit board, to be carried out by the caller.
#[derive(Clone, Copy, Debug, PartialEq, Eq, Structural)]
pub enum BoardStep {
    /// Set up the external camera.
    Expose(Exposure),
    /// Show a white frame on a window.
    White(usize),
    /// Show a black frame on a window.
    Black(usize),
    /// Wait for that many ms.
    Wait(i32),
    /// Show a black frame on a window and capture a frame of the external camera.
    Capture(usize),
}

/// The steps that capture the printed board: the second projector lights it,
/// while the first stays dark.
pub fn board_steps() -> (steps: Vec<BoardStep>)
    ensures
        steps@ == seq![
            BoardStep::Expose(scene_exposure(Scene::LitBoard)),
            BoardStep::White(1),
            BoardStep::Wait(300),
            BoardStep::Capture(0),
            BoardStep::Black(1),
            BoardStep::Wait(300),
        ],
{
    let mut steps: Vec<BoardStep> = Vec::new();
    steps.push(BoardStep::Expose(Scene::LitBoard.exposure()));
    steps.push(BoardStep::White(1));
    steps.push(BoardStep::Wait(300));
    steps.push(BoardStep::Capture(0));
    steps.push(BoardStep::Black(1));
    steps.push(BoardStep::Wait(300));
    assert(steps@ =~= seq![
        BoardStep::Expose(scene_exposure(Scene::LitBoard)),
        BoardStep::White(1),
        BoardStep::Wait(300),
        BoardStep::Capture(0),
        BoardStep::Black(1),
        BoardStep::Wait(300),
    ]);
    steps
}

// ---- one projector alone ----

/// A step that leaves one projector alone lit, to be carried out by the caller.
#[derive(Clone, Copy, Debug, PartialEq, Eq, Structural)]
pub enum WindowStep {
    /// Set up the window of a projector.
    SetUp(usize),
    /// Show a black frame on the window of a projector.
    Blank(usize),
    /// Let the windows repaint.
    Repaint,
}

/// Set up the windows from 0 up to `count`, all but the target's black.
pub open spec fn windows_set_up(count: int, target: int) -> Seq<WindowStep>
    decreases count,
{
    if count <= 0 {
        seq![]
    } else {
        let before = windows_set_up(count - 1, target).push(WindowStep::SetUp((count - 1) as usize));
        if count - 1 == target {
            before
        } else {
            before.push(WindowStep::Blank((count - 1) as usize))
        }
    }
}

/// Blank every projector but the target, so that only the target lights the
/// scene.
pub fn isolate_projector(projector_count: usize, target_projector: usize) -> (steps: Vec<WindowStep>)
    ensures
        steps@ == windows_set_up(projector_count as int, target_projector as int).push(
            WindowStep::Repaint,
        ),
{
    let mut steps: Vec<WindowStep> = Vec::new();
    let mut i: usize = 0;
    while i < projector_count
        invariant
            i <= projector_count,
            steps@ == windows_set_up(i as int, target_projector as int),
        decreases projector_count - i,
    {
        steps.push(WindowStep::SetUp(i));
        if i != target_projector {
            steps.push(WindowStep::Blank(i));
        }
        i += 1;
    }
    steps.push(WindowStep::Repaint);
    steps
}

// ---- the search for the board ----

/// The search for the board under a dark projector.
#[derive(Debug)]
pub enum BoardSearch {
    /// Capture the scene and look for the board.
    Looking,
    /// Ask the operator whether to go on.
    Asking,
    /// The board was found, with its ordered corners, in an image of that size.
    Found { corners: Vec<Point2f>, image_size: Size },
    /// The operator gave up.
    Cancelled,
}

/// What happened to a search.
#[derive(Debug)]
pub enum SearchEvent {
    /// A capture was searched.
    Looked { found: bool, corners: Vec<Point2f>, image_size: Size },
    /// The operator pressed a key, or none in time.
    Key(i32),
}

/// A step of the search and of the captures after it, to be carried out by the
/// caller.
#[derive(Clone, Copy, Debug, PartialEq, Eq, Structural)]
pub enum SearchStep {
    /// Show the black pattern on a window.
    Darken(usize),
    /// Set up the external camera.
    Expose(Exposure),
    /// Show the black pattern on a window, capture a frame of the external camera,
    /// and look for the board in it.
    Look(usize),
    /// Tell the operator that there is no board, and wait that many ms for a key.
    Ask(i32),
    /// Show a Gray-code pattern on a window and capture a frame of the external
    /// camera.
    CaptureCode { window: usize, code: usize },
}

impl BoardSearch {
    /// Whether the event can happen to the search.
    pub open spec fn awaits(self, event: SearchEvent) -> bool {
        match event {
            SearchEvent::Looked { found, corners, .. } => self is Looking && (found
                ==> corners@.len() > 0),
            SearchEvent::Key(_) => self is Asking,
        }
    }

    /// Whether `next` is what a search becomes by an event: the board ends it, a
    /// miss asks the operator, who cancels or has it repeated.
    pub open spec fn becomes(event: SearchEvent, next: BoardSearch) -> bool {
        match event {
            SearchEvent::Looked { found, corners, image_size } => if found {
                next matches BoardSearch::Found { corners: c, image_size: s } && c@ == ordered(
                    corners@,
                ) && s == image_size
            } else {
                next is Asking
            },
            SearchEvent::Key(key) => if key == CANCEL_KEY {
                next is Cancelled
            } else {
                next is Looking
            },
        }
    }

    /// What is to be done in this state, for a projector that shows `codes`
    /// Gray-code patterns.
    pub open spec fn plan(self, window: usize, codes: nat) -> Seq<SearchStep> {
        match self {
            BoardSearch::Looking => seq![
                SearchStep::Darken(window),
                SearchStep::Expose(scene_exposure(Scene::DarkBoard)),
                SearchStep::Look(window),
            ],
            BoardSearch::Asking => seq![SearchStep::Ask(5000)],
            BoardSearch::Found { .. } => seq![SearchStep::Expose(scene_exposure(Scene::Pattern))]
                + code_captures(window, codes),
            BoardSearch::Cancelled => seq![],
        }
    }

    /// The steps to carry out in this state. While the board is looked for, each
    /// attempt sets the camera up anew; once it is found, the camera is set up once
    /// for all the patterns.
    pub fn steps(&self, window: usize, codes: usize) -> (steps: Vec<SearchStep>)
        ensures
            steps@ == self.plan(window, codes as nat),
    {
        let mut steps: Vec<SearchStep> = Vec::new();
        match self {
            BoardSearch::Looking => {
                steps.push(SearchStep::Darken(window));
                steps.push(SearchStep::Expose(Scene::DarkBoard.exposure()));
                steps.push(SearchStep::Look(window));
            },
            BoardSearch::Asking => {
                steps.push(SearchStep::Ask(5000));
            },
            BoardSearch::Found { .. } => {
                steps.push(SearchStep::Expose(Scene::Pattern.exposure()));
                let mut code: usize = 0;
                while code < codes
                    invariant
                        code <= codes,
                        steps@ =~= seq![SearchStep::Expose(scene_exposure(Scene::Pattern))]
                            + code_captures(window, code as nat),
                    decreases codes - code,
                {
                    steps.push(SearchStep::CaptureCode { window, code });
                    code += 1;
                }
            },
            BoardSearch::Cancelled => {},
        }
        assert(steps@ =~= self.plan(window, codes as nat));
        steps
    }

    /// Go on after an event: the board ends the search, a miss asks the operator,
    /// who cancels or has it repeated.
    pub fn next(self, event: SearchEvent) -> (r: BoardSearch)
        requires
            self.awaits(event),
        ensures
            BoardSearch::becomes(event, r),
    {
        match event {
            SearchEvent::Looked { found, corners, image_size } => {
                if found {
                    BoardSearch::Found { corners: order_corners(corners), image_size }
                } else {
                    BoardSearch::Asking
                }
            },
            SearchEvent::Key(key) => {
                if key == CANCEL_KEY {
                    BoardSearch::Cancelled
                } else {
                    BoardSearch::Looking
                }
            },
        }
    }

    /// The outcome of a search that ended.
    pub fn outcome(self) -> (r: Option<Result<(Vec<Point2f>, Size), ExternalError>>)
        ensures
            match self {
                BoardSearch::Looking | BoardSearch::Asking => r is None,
                BoardSearch::Found { corners, image_size } => r == Some(
                    Ok::<(Vec<Point2f>, Size), ExternalError>((corners, image_size)),
                ),
                BoardSearch::Cancelled => r == Some(
                    Err::<(Vec<Point2f>, Size), ExternalError>(ExternalError::DetectionCancelled),
                ),
            },
    {
        match self {
            BoardSearch::Looking | BoardSearch::Asking => None,
            BoardSearch::Found { corners, image_size } => Some(Ok((corners, image_size))),
            BoardSearch::Cancelled => Some(Err(ExternalError::DetectionCancelled)),
        }
    }
}

/// One capture per Gray-code pattern.
pub open spec fn code_captures(window: usize, codes: nat) -> Seq<SearchStep> {
    Seq::new(codes, |i: int| SearchStep::CaptureCode { window, code: i as usize })
}

/// A call that is made on the external camera.
pub enum CameraCall {
    Change(Setting),
    Capture,
}

/// The calls that set up the external camera.
pub open spec fn setup_calls(scene: Scene) -> Seq<CameraCall> {
    exposure_calls(scene_exposure(scene))
}

/// The calls that make the settings of an exposure.
pub open spec fn exposure_calls(exposure: Exposure) -> Seq<CameraCall> {
    exposure.in_order().map_values(|setting: Setting| CameraCall::Change(setting))
}

/// The calls that the steps make on the external camera, in order.
pub open spec fn camera_calls(steps: Seq<SearchStep>) -> Seq<CameraCall>
    decreases steps.len(),
{
    if steps.len() == 0 {
        seq![]
    } else {
        let before = camera_calls(steps.drop_last());
        match steps.last() {
            SearchStep::Expose(exposure) => before + exposure_calls(exposure),
            SearchStep::Look(_) | SearchStep::CaptureCode { .. } => before.push(CameraCall::Capture),
            SearchStep::Darken(_) | SearchStep::Ask(_) => before,
        }
    }
}

/// `states` are what a search goes through by `events`, from its start on.
pub open spec fn search_run(states: Seq<BoardSearch>, events: Seq<SearchEvent>) -> bool {
    &&& states.len() == events.len() + 1
    &&& states[0] is Looking
    &&& forall|i: int|
        0 <= i < events.len() ==> states[i].awaits(#[trigger] events[i]) && BoardSearch::becomes(
            events[i],
            states[i + 1],
        )
}

/// The calls that are made on the external camera as a search goes through
/// `states`.
pub open spec fn run_calls(states: Seq<BoardSearch>, window: usize, codes: nat) -> Seq<CameraCall>
    decreases states.len(),
{
    if states.len() == 0 {
        seq![]
    } else {
        run_calls(states.drop_last(), window, codes) + camera_calls(states.last().plan(window, codes))
    }
}

/// The calls of `attempts` looks at the dark board: each sets the camera up and
/// captures once.
pub open spec fn look_calls(attempts: nat) -> Seq<CameraCall>
    decreases attempts,
{
    if attempts == 0 {
        seq![]
    } else {
        look_calls((attempts - 1) as nat) + setup_calls(Scene::DarkBoard).push(CameraCall::Capture)
    }
}

// ---- lines ----

/// Calls `itertools::Itertools::sorted_by_key` with the first number of a pair as
/// its key. The sort is stable: pairs that are numbered as they stand come out
/// in ascending order of key, and in ascending order of number where the keys
/// agree.
#[verifier::external_body]
fn sorted_by_first(pairs: Vec<(i64, usize)>) -> (sorted: Vec<(i64, usize)>)
    requires
        forall|i: int| 0 <= i < pairs@.len() ==> (#[trigger] pairs@[i]).1 == i,
    ensures
        sorted@.to_multiset() == pairs@.to_multiset(),
        sorted@.len() == pairs@.len(),
        forall|i: int, j: int|
            0 <= i < j < sorted@.len() ==> {
                ||| (#[trigger] sorted@[i]).0 < (#[trigger] sorted@[j]).0
                ||| sorted@[i].0 == sorted@[j].0 && sorted@[i].1 < sorted@[j].1
            },
{
    pairs.into_iter().sorted_by_key(|pair| pair.0).collect()
}

/// `k` is the first of the lines with most votes.
pub open spec fn strongest(votes: Seq<F32>, k: int) -> bool {
    &&& 0 <= k < votes.len()
    &&& forall|j: int| 0 <= j < votes.len() ==> (#[trigger] votes[j]).value() <= votes[k].value()
    &&& forall|j: int| 0 <= j < k ==> (#[trigger] votes[j]).value() < votes[k].value()
}

/// Keep the strongest line along an axis, given the votes of all: its index, or
/// an error where there is none.
pub fn strongest_line(axis: Axis, votes: &Vec<F32>) -> (r: Result<usize, ExternalError>)
    requires
        forall|j: int| 0 <= j < votes@.len() ==> !(#[trigger] votes@[j]).nan(),
    ensures
        votes@.len() == 0 ==> r == Err::<usize, ExternalError>(ExternalError::NoLines(axis)),
        votes@.len() > 0 ==> r is Ok && strongest(votes@, r->Ok_0 as int),
{
    if votes.len() == 0 {
        return Err(ExternalError::NoLines(axis));
    }
    let mut pairs: Vec<(i64, usize)> = Vec::new();
    let mut i: usize = 0;
    while i < votes.len()
        invariant
            i <= votes.len(),
            pairs@.len() == i,
            forall|j: int|
                0 <= j < i ==> (#[trigger] pairs@[j]).0 == -votes@[j].key() && pairs@[j].1 == j,
        decreases votes.len() - i,
    {
        pairs.push((-votes[i].order_key(), i));
        i += 1;
    }
    let ghost all = pairs@;
    let sorted = sorted_by_first(pairs);
    let k: usize = sorted[0].1;
    proof {
        let first = sorted@[0];
        lemma_same_members(sorted@, all, 0);
        assert forall|j: int| 0 <= j < votes@.len() implies (#[trigger] votes@[j]).value()
            <= votes@[k as int].value() && (j < k ==> votes@[j].value() < votes@[k as int].value()) by {
            lemma_same_members(all, sorted@, j);
            let s = choose|s: int| 0 <= s < sorted@.len() && sorted@[s] == all[j];
            if s > 0 {
                assert(first.0 < sorted@[s].0 || first.0 == sorted@[s].0 && first.1 < sorted@[s].1);
            }
            lemma_key_orders(votes@[j], votes@[k as int]);
        }
    }
    Ok(k)
}

/// The line that is projected along an axis through a projector pixel.
pub open spec fn line_through(projector_size: Size, position: Point2f, axis: Axis) -> Stroke {
    let value = match axis {
        Axis::X => position.x.nearest(),
        Axis::Y => position.y.nearest(),
    };
    full_span(projector_size, value as i32, axis)
}

/// Whether a step captures the line along an axis through a projector pixel.
pub open spec fn captures_line(
    step: LocateStep,
    projector_size: Size,
    position: Point2f,
    line: Axis,
) -> bool {
    step matches LocateStep::Capture { window, axis, strokes } && window == 0 && axis == line
        && strokes@ == seq![line_through(projector_size, position, line)]
}

/// A step of the search for a projector pixel, to be carried out by the caller.
#[derive(Debug)]
pub enum LocateStep {
    /// Set up the external camera.
    Expose(Exposure),
    /// Show the lines along an axis on a window, and capture a frame of the external
    /// camera, in which the strongest line is to be found.
    Capture { window: usize, axis: Axis, strokes: Vec<Stroke> },
}

// ---- cells of the board ----

/// A cell of the board, by its top-left grid point, with the indices of its four
/// corners among the corners of the board.
#[derive(Clone, Copy, Debug, PartialEq, Eq, Structural)]
pub struct Cell {
    pub row: i32,
    pub col: i32,
    pub top_left: usize,
    pub top_right: usize,
    pub bottom_left: usize,
    pub bottom_right: usize,
}

/// The index of a grid point among the corners of a board of that width, which
/// are listed row by row.
pub open spec fn corner_index(width: int, row: int, col: int) -> int {
    row * width + col
}

/// The cell whose top-left grid point is in that row and column.
pub open spec fn cell_at(width: int, row: int, col: int) -> Cell {
    Cell {
        row: row as i32,
        col: col as i32,
        top_left: corner_index(width, row, col) as usize,
        top_right: corner_index(width, row, col + 1) as usize,
        bottom_left: corner_index(width, row + 1, col) as usize,
        bottom_right: corner_index(width, row + 1, col + 1) as usize,
    }
}

/// The rows or columns of cells of a board that has `points` grid points on that
/// side: one fewer.
pub open spec fn cell_span(points: int) -> Span {
    Span { start: 0, end: (points - 2) as i32 }
}

/// All cells of a board, row by row.
pub open spec fn cells_of(pattern_size: Size) -> Seq<Cell> {
    let places = grid_of(cell_span(pattern_size.height as int), cell_span(pattern_size.width as int));
    places.map_values(
        |place: (i32, i32)| cell_at(pattern_size.width as int, place.0 as int, place.1 as int),
    )
}

/// The sides of a board can be counted, and so can its corners, as far as they are
/// looked up: all of them, or up to the first that is missing.
pub open spec fn board_fits(pattern_size: Size, corner_count: usize) -> bool {
    &&& i32::MIN + 2 <= pattern_size.width
    &&& i32::MIN + 2 <= pattern_size.height
    &&& pattern_size.width > 1 && pattern_size.height > 1 && pattern_size.height
        * pattern_size.width > i32::MAX ==> pattern_size.width < i32::MAX && corner_count < i32::MAX
}

/// The index of a corner of a cell: top left, top right, bottom left, bottom right.
pub open spec fn cell_corner(cell: Cell, j: int) -> usize {
    if j == 0 {
        cell.top_left
    } else if j == 1 {
        cell.top_right
    } else if j == 2 {
        cell.bottom_left
    } else {
        cell.bottom_right
    }
}

/// The indices of the corners of cells, in the order in which they are looked up.
pub open spec fn cell_corners(cells: Seq<Cell>) -> Seq<usize> {
    Seq::new((4 * cells.len()) as nat, |i: int| cell_corner(cells[i / 4], i % 4))
}

/// Of `count` corners, `index` is the first that is looked up and is not there.
pub open spec fn first_missing(indices: Seq<usize>, count: usize, index: usize) -> bool {
    exists|i: int|
        0 <= i < indices.len() && #[trigger] indices[i] == index && index >= count && forall|j: int|
            0 <= j < i ==> #[trigger] indices[j] < count
}

/// The first corner of a cell that is not there.
fn missing_corner(cell: Cell, count: usize) -> (r: Option<usize>)
    ensures
        r is None <==> forall|j: int| 0 <= j < 4 ==> #[trigger] cell_corner(cell, j) < count,
        r is Some ==> exists|i: int|
            0 <= i < 4 && #[trigger] cell_corner(cell, i) == r->Some_0 && r->Some_0 >= count
                && forall|j: int| 0 <= j < i ==> #[trigger] cell_corner(cell, j) < count,
{
    if cell.top_left >= count {
        assert(cell_corner(cell, 0) == cell.top_left);
        Some(cell.top_left)
    } else if cell.top_right >= count {
        assert(cell_corner(cell, 1) == cell.top_right);
        Some(cell.top_right)
    } else if cell.bottom_left >= count {
        assert(cell_corner(cell, 2) == cell.bottom_left);
        Some(cell.bottom_left)
    } else if cell.bottom_right >= count {
        assert(cell_corner(cell, 3) == cell.bottom_right);
        Some(cell.bottom_right)
    } else {
        None
    }
}

/// An index of a grid point of the board is smaller than the number of corners.
proof fn lemma_corner_index(width: int, height: int, row: int, col: int)
    requires
        0 <= row < height,
        0 <= col < width,
    ensures
        0 <= row * width,
        0 <= corner_index(width, row, col) < height * width,
        corner_index(width, row, col) == height * width - 1 <==> row == height - 1 && col == width - 1,
{
    assert(0 <= row * width) by (nonlinear_arith)
        requires
            0 <= row,
            0 <= width,
    ;
    assert(row * width + width <= height * width) by (nonlinear_arith)
        requires
            row + 1 <= height,
            0 <= width,
    ;
    if row < height - 1 {
        assert(row * width + 2 * width <= height * width) by (nonlinear_arith)
            requires
                row + 2 <= height,
                0 <= width,
        ;
    } else {
        assert(row * width + width == height * width) by (nonlinear_arith)
            requires
                row + 1 == height,
        ;
    }
}

/// `k` is the first of the smallest distances.
pub open spec fn nearest(distances: Seq<F32>, k: int) -> bool {
    &&& 0 <= k < distances.len()
    &&& distances[k].below(largest_single())
    &&& forall|j: int|
        0 <= j < distances.len() && !(#[trigger] distances[j]).nan() ==> distances[k].value()
            <= distances[j].value()
    &&& forall|j: int|
        0 <= j < k && !(#[trigger] distances[j]).nan() ==> distances[k].value() < distances[j].value()
}

/// Find the cell whose center is nearest the image point, given the distances
/// from the point to the centers: its row and column, or the first cell where no
/// distance is a number below the largest.
pub fn find_containing_cell(cells: &Vec<Cell>, distances: &Vec<F32>) -> (cell: (i32, i32))
    requires
        cells@.len() == distances@.len(),
    ensures
        (exists|j: int| 0 <= j < distances@.len() && (#[trigger] distances@[j]).below(largest_single())) ==> exists|
            k: int,
        |
            #![trigger distances@[k]]
            nearest(distances@, k) && cell == (cells@[k].row, cells@[k].col),
        (forall|j: int| 0 <= j < distances@.len() ==> !(#[trigger] distances@[j]).below(largest_single()))
            ==> cell == (0i32, 0i32),
{
    let mut best: F32 = F32 { bits: 0x7f7f_ffff };
    let mut best_cell: (i32, i32) = (0, 0);
    let ghost mut found: Option<int> = None;
    let mut j: usize = 0;
    while j < distances.len()
        invariant
            j <= distances.len(),
            cells@.len() == distances@.len(),
            !best.nan(),
            found is None ==> best == largest_single() && best_cell == (0i32, 0i32) && forall|i: int|
                0 <= i < j ==> !(#[trigger] distances@[i]).below(largest_single()),
            found is Some ==> {
                let k = found->Some_0;
                &&& 0 <= k < j
                &&& best == distances@[k]
                &&& best.below(largest_single())
                &&& best_cell == (cells@[k].row, cells@[k].col)
                &&& forall|i: int|
                    0 <= i < j && !(#[trigger] distances@[i]).nan() ==> best.value()
                        <= distances@[i].value()
                &&& forall|i: int|
                    0 <= i < k && !(#[trigger] distances@[i]).nan() ==> best.value()
                        < distances@[i].value()
            },
        decreases distances.len() - j,
    {
        if distances[j].less(best) {
            best = distances[j];
            best_cell = (cells[j].row, cells[j].col);
            proof {
                found = Some(j as int);
            }
        }
        j += 1;
    }
    proof {
        if let Some(k) = found {
            assert(nearest(distances@, k));
        }
    }
    best_cell
}

/// A grid point of the board: which corner it is, and its column and row, which
/// times the size of a square are its world coordinates.
#[derive(Clone, Copy, Debug, PartialEq, Eq, Structural)]
pub struct GridPoint {
    pub corner: usize,
    pub col: i32,
    pub row: i32,
}

/// The grid point in that row and column.
pub open spec fn grid_point(width: int, row: int, col: int) -> GridPoint {
    GridPoint {
        corner: corner_index(width, row, col) as usize,
        col: col as i32,
        row: row as i32,
    }
}

/// The rows or columns of grid points around a cell: from the one before it to
/// the one behind it, as far as the board has them.
pub open spec fn neighbourhood(cell: int, points: int) -> Span {
    Span {
        start: (if cell >= 1 {
            cell - 1
        } else {
            0
        }) as i32,
        end: (if cell + 2 <= points - 1 {
            cell + 2
        } else {
            points - 1
        }) as i32,
    }
}

/// The places of the grid points around a cell, row by row, as pairs of row and
/// column.
pub open spec fn places_around(pattern_size: Size, cell: (i32, i32)) -> Seq<(i32, i32)> {
    grid_of(
        neighbourhood(cell.0 as int, pattern_size.height as int),
        neighbourhood(cell.1 as int, pattern_size.width as int),
    )
}

/// The grid points around a cell, row by row.
pub open spec fn points_around(pattern_size: Size, cell: (i32, i32)) -> Seq<GridPoint> {
    places_around(pattern_size, cell).map_values(
        |place: (i32, i32)| grid_point(pattern_size.width as int, place.0 as int, place.1 as int),
    )
}

/// The indices of the corners around a cell, in the order in which they are looked
/// up.
pub open spec fn corners_around(pattern_size: Size, cell: (i32, i32)) -> Seq<usize> {
    points_around(pattern_size, cell).map_values(|p: GridPoint| p.corner)
}

/// The cells are numbered row by row.
proof fn lemma_cell_index(pattern_size: Size, row: int, col: int, k: int)
    requires
        pattern_size.width > 1,
        0 <= row < pattern_size.height - 1,
        0 <= col < pattern_size.width - 1,
        k == row * (pattern_size.width - 1) + col,
    ensures
        0 <= k < cells_of(pattern_size).len(),
        cells_of(pattern_size)[k] == cell_at(pattern_size.width as int, row, col),
{
    let n = pattern_size.width - 1;
    let m = pattern_size.height - 1;
    assert(0 <= k < m * n) by (nonlinear_arith)
        requires
            k == row * n + col,
            0 <= row < m,
            0 <= col < n,
    ;
    lemma_fundamental_div_mod_converse(k, n, row, col);
}

/// A corner that is missing in a cell, where none is missing in the cells before
/// it, is the first.
proof fn lemma_missing_in_cell(cells: Seq<Cell>, k: int, count: usize, index: usize)
    requires
        0 <= k < cells.len(),
        forall|i: int| 0 <= i < 4 * k ==> #[trigger] cell_corners(cells)[i] < count,
        exists|i: int|
            0 <= i < 4 && #[trigger] cell_corner(cells[k], i) == index && index >= count && forall|j: int|
                0 <= j < i ==> #[trigger] cell_corner(cells[k], j) < count,
    ensures
        first_missing(cell_corners(cells), count, index),
{
    let indices = cell_corners(cells);
    let i = choose|i: int|
        0 <= i < 4 && #[trigger] cell_corner(cells[k], i) == index && index >= count && forall|j: int|
            0 <= j < i ==> #[trigger] cell_corner(cells[k], j) < count;
    assert((4 * k + i) / 4 == k && (4 * k + i) % 4 == i);
    assert(indices[4 * k + i] == index);
    assert forall|j: int| 0 <= j < 4 * k + i implies #[trigger] indices[j] < count by {
        if j >= 4 * k {
            assert(j / 4 == k && j % 4 == j - 4 * k);
            assert(cell_corner(cells[k], j - 4 * k) < count);
        }
    }
}

/// The corners of the board can be counted, or at least those around a cell, as far
/// as they are looked up: all of them, or up to the first that is missing.
pub open spec fn neighbourhood_fits(pattern_size: Size, cell: (i32, i32), corner_count: usize) -> bool {
    let width = pattern_size.width as int;
    let places = places_around(pattern_size, cell);
    ||| pattern_size.height * pattern_size.width <= i32::MAX
    ||| forall|k: int|
        0 <= k < places.len() && (forall|j: int|
            0 <= j < k ==> corner_index(
                width,
                (#[trigger] places[j]).0 as int,
                places[j].1 as int,
            ) < corner_count) ==> corner_index(
            width,
            (#[trigger] places[k]).0 as int,
            places[k].1 as int,
        ) <= i32::MAX
}

// ---- the patch around a corner ----

/// The pixels on one axis of the patch around `center`, as far as the image has
/// them.
pub open spec fn patch_span(center: int, limit: int) -> Span {
    Span {
        start: (if center - PATCH_SIZE / 2 >= 0 {
            center - PATCH_SIZE / 2
        } else {
            0
        }) as i32,
        end: (if center + PATCH_SIZE / 2 <= limit - 1 {
            center + PATCH_SIZE / 2
        } else {
            limit - 1
        }) as i32,
    }
}

/// The pixels of the patch around a corner, column by column, as pairs of x and
/// y.
pub open spec fn patch(corner: Point2f, image_size: Size) -> Seq<(i32, i32)> {
    grid_of(
        patch_span(corner.x.nearest(), image_size.width as int),
        patch_span(corner.y.nearest(), image_size.height as int),
    )
}

/// The patch around a corner, before it is clipped, has pixel coordinates.
pub open spec fn patch_fits(corner: Point2f) -> bool {
    &&& i32::MIN + 32 <= corner.x.nearest() <= i32::MAX - 32
    &&& i32::MIN + 32 <= corner.y.nearest() <= i32::MAX - 32
}

/// The camera-image pixels around a corner that are decoded to fit a local
/// homography: those of the patch that lie in the image.
pub fn patch_pixels(corner: Point2f, image_size: Size) -> (pixels: Vec<(i32, i32)>)
    requires
        patch_fits(corner),
        image_size.width >= 0,
        image_size.height >= 0,
    ensures
        pixels@ == patch(corner, image_size),
{
    grid(
        patch_range(corner.x.round(), image_size.width),
        patch_range(corner.y.round(), image_size.height),
    )
}

/// Of every corner, the camera-image pixels to decode.
pub fn get_projector_image_coordinate_on_checkerboard_corners(
    corners: &Vec<Point2f>,
    image_size: Size,
) -> (patches: Vec<Vec<(i32, i32)>>)
    requires
        forall|i: int| 0 <= i < corners@.len() ==> patch_fits(#[trigger] corners@[i]),
        image_size.width >= 0,
        image_size.height >= 0,
    ensures
        patches@.len() == corners@.len(),
        forall|i: int|
            0 <= i < patches@.len() ==> (#[trigger] patches@[i])@ == patch(corners@[i], image_size),
{
    let mut patches: Vec<Vec<(i32, i32)>> = Vec::new();
    let mut i: usize = 0;
    while i < corners.len()
        invariant
            forall|j: int| 0 <= j < corners@.len() ==> patch_fits(#[trigger] corners@[j]),
            image_size.width >= 0,
            image_size.height >= 0,
            i <= corners.len(),
            patches@.len() == i,
            forall|j: int|
                0 <= j < i ==> (#[trigger] patches@[j])@ == patch(corners@[j], image_size),
        decreases corners.len() - i,
    {
        assert(patch_fits(corners@[i as int]));
        patches.push(patch_pixels(corners[i], image_size));
        i += 1;
    }
    patches
}

/// Pair the pixels of a patch with the projector pixels that they were decoded
/// to: what the local homography is fitted to.
pub fn patch_correspondences(pixels: &Vec<(i32, i32)>, decoded: &Vec<Point2i>) -> (r: Correspondences)
    requires
        pixels@.len() == decoded@.len(),
    ensures
        r.from@ == pixels@.map_values(|p: (i32, i32)| pixel_point(Point2i { x: p.0, y: p.1 })),
        r.to@ == decoded@.map_values(|p: Point2i| pixel_point(p)),
{
    let mut from: Vec<Point2f> = Vec::new();
    let mut to: Vec<Point2f> = Vec::new();
    let mut i: usize = 0;
    while i < pixels.len()
        invariant
            pixels@.len() == decoded@.len(),
            i <= pixels.len(),
            from@ =~= pixels@.take(i as int).map_values(
                |p: (i32, i32)| pixel_point(Point2i { x: p.0, y: p.1 }),
            ),
            to@ =~= decoded@.take(i as int).map_values(|p: Point2i| pixel_point(p)),
        decreases pixels.len() - i,
    {
        let (x, y) = pixels[i];
        from.push(Point2i { x, y }.to_point());
        to.push(decoded[i].to_point());
        i += 1;
    }
    assert(pixels@.take(i as int) =~= pixels@);
    assert(decoded@.take(i as int) =~= decoded@);
    Correspondences { from, to }
}

/// The pixels on one axis of the patch around `center`.
fn patch_range(center: i32, limit: i32) -> (r: Span)
    requires
        i32::MIN + 32 <= center <= i32::MAX - 32,
        limit >= 0,
    ensures
        r == patch_span(center as int, limit as int),
{
    let half: i32 = PATCH_SIZE / 2;
    Span {
        start: if center - half >= 0 {
            center - half
        } else {
            0
        },
        end: if center + half <= limit - 1 {
            center + half
        } else {
            limit - 1
        },
    }
}

// ---- the calibrator ----

/// Acquires where projector pixels land on the board.
#[derive(Clone, Copy, Debug, PartialEq, Eq, Structural)]
pub struct ExternalCalibrator {
    /// Projector resolution in pixels.
    pub projector_size: Size,
    /// Checkerboard inner-corner grid size (cols x rows).
    pub pattern_size: Size,
    /// Physical size of one checkerboard square, in millimetres.
    pub millimetre_per_block: F32,
}

/// The positions that were found, by camera.
pub open spec fn found_positions(located: Seq<(CameraId, Option<Point2f>)>) -> Map<CameraId, Point2f>
    decreases located.len(),
{
    if located.len() == 0 {
        Map::empty()
    } else {
        let before = found_positions(located.drop_last());
        match located.last().1 {
            Some(position) => before.insert(located.last().0, position),
            None => before,
        }
    }
}

impl ExternalCalibrator {
    /// A calibrator for that projector and board.
    pub fn new(projector_size: Size, pattern_size: Size, millimetre_per_block: F32) -> (r: Self)
        ensures
            r == (ExternalCalibrator { projector_size, pattern_size, millimetre_per_block }),
    {
        ExternalCalibrator { projector_size, pattern_size, millimetre_per_block }
    }

    /// The steps that locate a projector pixel in the camera image: the camera is
    /// set up once, and then sees a vertical and a horizontal line through the pixel,
    /// one after the other, on the first window.
    pub fn locate_steps(&self, position: Point2f) -> (steps: Vec<LocateStep>)
        requires
            self.projector_size.width >= 0,
            self.projector_size.height >= 0,
        ensures
            steps@.len() == 3,
            steps@[0] == LocateStep::Expose(scene_exposure(Scene::Pattern)),
            captures_line(steps@[1], self.projector_size, position, Axis::X),
            captures_line(steps@[2], self.projector_size, position, Axis::Y),
    {
        let mut column: Vec<i32> = Vec::new();
        column.push(position.x.round());
        let mut row: Vec<i32> = Vec::new();
        row.push(position.y.round());
        let vertical = generate_axis_lines(self.projector_size, &column, Axis::X);
        let horizontal = generate_axis_lines(self.projector_size, &row, Axis::Y);
        assert(vertical@ =~= seq![line_through(self.projector_size, position, Axis::X)]);
        assert(horizontal@ =~= seq![line_through(self.projector_size, position, Axis::Y)]);
        let mut steps: Vec<LocateStep> = Vec::new();
        steps.push(LocateStep::Expose(Scene::Pattern.exposure()));
        steps.push(LocateStep::Capture { window: 0, axis: Axis::X, strokes: vertical });
        steps.push(LocateStep::Capture { window: 0, axis: Axis::Y, strokes: horizontal });
        steps
    }

    /// List the cells of the board, given how many corners were detected. The
    /// corners of the cells are looked up cell by cell; one that was not detected is
    /// an error.
    pub fn board_cells(&self, corner_count: usize) -> (r: Result<Vec<Cell>, ExternalError>)
        requires
            board_fits(self.pattern_size, corner_count),
        ensures
            r is Ok <==> self.pattern_size.width <= 1 || self.pattern_size.height <= 1 || self.pattern_size.height
                * self.pattern_size.width <= corner_count,
            r is Err ==> (r->Err_0 matches ExternalError::MissingCorner { index, count } && count
                == corner_count && first_missing(
                cell_corners(cells_of(self.pattern_size)),
                corner_count,
                index,
            )),
            r is Ok ==> r->Ok_0@ == cells_of(self.pattern_size),
    {
        let pattern_size = self.pattern_size;
        let width: i32 = pattern_size.width;
        let height: i32 = pattern_size.height;
        let mut cells: Vec<Cell> = Vec::new();
        let ghost all = cells_of(pattern_size);
        let ghost (rows, cols) = (cell_span(height as int), cell_span(width as int));
        let ghost n = width - 1;
        if width <= 1 || height <= 1 {
            proof {
                assert(extent(rows) * extent(cols) == 0) by (nonlinear_arith)
                    requires
                        extent(rows) == 0 || extent(cols) == 0,
                ;
                assert(cells@ =~= all);
            }
            return Ok(cells);
        }
        let ghost mut k: int = 0;
        let mut row: i32 = 0;
        let mut col: i32 = 0;
        assert(0 * n == 0) by (nonlinear_arith);
        while row < height - 1
            invariant
                pattern_size == self.pattern_size,
                board_fits(pattern_size, corner_count),
                width == pattern_size.width,
                height == pattern_size.height,
                width > 1,
                height > 1,
                n == width - 1,
                rows == cell_span(height as int),
                cols == cell_span(width as int),
                all == cells_of(pattern_size),
                0 <= row <= height - 1,
                0 <= col < n,
                row == height - 1 ==> col == 0,
                0 <= k == row * n + col,
                k > 0 ==> corner_index(
                    width as int,
                    if col > 0 {
                        row + 1
                    } else {
                        row as int
                    },
                    if col > 0 {
                        col as int
                    } else {
                        width - 1
                    },
                ) < corner_count,
                k == 0 ==> row == 0 && col == 0,
                cells@ == all.take(k),
                forall|i: int| 0 <= i < 4 * k ==> #[trigger] cell_corners(all)[i] < corner_count,
            decreases height - 1 - row, width - col,
        {
            proof {
                lemma_cell_index(pattern_size, row as int, col as int, k);
                lemma_corner_index(width as int, height as int, row + 1, col + 1);
                assert((row + 1) * width == row * width + width) by (nonlinear_arith);
                assert(0 <= row * width) by (nonlinear_arith)
                    requires
                        0 <= row,
                        0 < width,
                ;
                assert(k == 0 ==> row * width == 0) by (nonlinear_arith)
                    requires
                        k == 0 ==> row == 0,
                ;
            }
            let upper: i32 = row * width + col;
            let lower: i32 = (row + 1) * width + col;
            let cell = Cell {
                row,
                col,
                top_left: upper as usize,
                top_right: (upper + 1) as usize,
                bottom_left: lower as usize,
                bottom_right: (lower + 1) as usize,
            };
            assert(cell == all[k]);
            let missing = missing_corner(cell, corner_count);
            if let Some(index) = missing {
                proof {
                    lemma_missing_in_cell(all, k, corner_count, index);
                    assert(index < height * width);
                }
                return Err(ExternalError::MissingCorner { index, count: corner_count });
            }
            cells.push(cell);
            proof {
                assert(cell_corner(cell, 3) == cell.bottom_right);
                assert forall|i: int| 0 <= i < 4 * (k + 1) implies #[trigger] cell_corners(all)[i]
                    < corner_count by {
                    if i >= 4 * k {
                        assert(i / 4 == k && i % 4 == i - 4 * k);
                        assert(cell_corner(cell, i - 4 * k) < corner_count);
                    }
                }
                assert((row + 1) * n == row * n + n) by (nonlinear_arith);
                assert(0 <= row * n) by (nonlinear_arith)
                    requires
                        0 <= row,
                        0 < n,
                ;
                assert(all.take(k).push(all[k]) =~= all.take(k + 1));
                k = k + 1;
            }
            col += 1;
            if col == width - 1 {
                col = 0;
                row += 1;
            }
        }
        proof {
            assert(extent(rows) * extent(cols) == (height - 1) * n);
            assert(all.take(k) =~= all);
            assert((height - 1) * width + width == height * width) by (nonlinear_arith);
            assert(k > 0) by (nonlinear_arith)
                requires
                    k == (height - 1) * n,
                    height > 1,
                    n > 0,
            ;
        }
        Ok(cells)
    }

    /// The grid points around `center_cell` (4x4, clamped to the board), given how
    /// many corners were detected: the correspondences for a local homography.
    pub fn get_local_correspondence(
        &self,
        center_cell: (i32, i32),
        corner_count: usize,
    ) -> (r: Result<Vec<GridPoint>, ExternalError>)
        requires
            i32::MIN < self.pattern_size.width,
            i32::MIN < self.pattern_size.height,
            neighbourhood_fits(self.pattern_size, center_cell, corner_count),
            i32::MIN < center_cell.0 <= i32::MAX - 2,
            i32::MIN < center_cell.1 <= i32::MAX - 2,
        ensures
            r is Ok <==> forall|k: int|
                0 <= k < points_around(self.pattern_size, center_cell).len() ==> (
                #[trigger] points_around(self.pattern_size, center_cell)[k]).corner < corner_count,
            r is Err ==> (r->Err_0 matches ExternalError::MissingCorner { index, count } && count
                == corner_count && first_missing(
                corners_around(self.pattern_size, center_cell),
                corner_count,
                index,
            )),
            r is Ok ==> r->Ok_0@ == points_around(self.pattern_size, center_cell),
    {
        let pattern_size = self.pattern_size;
        let (cell_row, cell_col) = center_cell;
        let width: i32 = pattern_size.width;
        let rows = Span {
            start: if cell_row >= 1 {
                cell_row - 1
            } else {
                0
            },
            end: if cell_row + 2 <= pattern_size.height - 1 {
                cell_row + 2
            } else {
                pattern_size.height - 1
            },
        };
        let cols = Span {
            start: if cell_col >= 1 {
                cell_col - 1
            } else {
                0
            },
            end: if cell_col + 2 <= width - 1 {
                cell_col + 2
            } else {
                width - 1
            },
        };
        let ghost all = points_around(pattern_size, center_cell);
        let places = grid(rows, cols);
        let mut points: Vec<GridPoint> = Vec::new();
        let mut k: usize = 0;
        while k < places.len()
            invariant
                pattern_size == self.pattern_size,
                neighbourhood_fits(pattern_size, center_cell, corner_count),
                width == pattern_size.width,
                rows.start >= 0,
                rows.end <= pattern_size.height - 1,
                cols.start >= 0,
                cols.end <= width - 1,
                places@ == grid_of(rows, cols),
                places@ == places_around(pattern_size, center_cell),
                all == places@.map_values(
                    |place: (i32, i32)| grid_point(width as int, place.0 as int, place.1 as int),
                ),
                all == points_around(pattern_size, center_cell),
                k <= places.len(),
                points@ =~= all.take(k as int),
                forall|j: int| 0 <= j < k ==> (#[trigger] all[j]).corner < corner_count,
                forall|j: int|
                    0 <= j < k ==> corner_index(
                        width as int,
                        (#[trigger] places@[j]).0 as int,
                        places@[j].1 as int,
                    ) < corner_count,
            decreases places.len() - k,
        {
            let (row, col) = places[k];
            proof {
                lemma_grid_index(rows, cols, k as int);
                lemma_corner_index(width as int, pattern_size.height as int, row as int, col as int);
                assert(corner_index(
                    width as int,
                    places@[k as int].0 as int,
                    places@[k as int].1 as int,
                ) <= i32::MAX);
            }
            let corner: usize = (row * width + col) as usize;
            assert(all[k as int].corner == corner);
            if corner >= corner_count {
                proof {
                    let indices = corners_around(pattern_size, center_cell);
                    assert(indices[k as int] == corner);
                    assert forall|j: int| 0 <= j < k implies #[trigger] indices[j] < corner_count by {
                        assert(indices[j] == all[j].corner);
                    }
                }
                return Err(ExternalError::MissingCorner { index: corner, count: corner_count });
            }
            points.push(GridPoint { corner, col, row });
            k += 1;
        }
        assert(all.take(k as int) =~= all);
        Ok(points)
    }

    /// Collect the effective positions on the board that were found; cameras that
    /// failed are skipped. The operator has seen them and pressed `key`.
    pub fn find_effective_camera_positions(&self, located: &Vec<(CameraId, Option<Point2f>)>, key: i32) -> (r: Result<
        HashMap<CameraId, Point2f>,
        ExternalError,
    >)
        ensures
            key == DISCARD_KEY ==> r == Err::<HashMap<CameraId, Point2f>, ExternalError>(
                ExternalError::PositionsCancelled,
            ),
            key != DISCARD_KEY ==> r is Ok && r->Ok_0@ == found_positions(located@),
    {
        if key == DISCARD_KEY {
            return Err(ExternalError::PositionsCancelled);
        }
        let mut positions: HashMap<CameraId, Point2f> = HashMap::new();
        let mut i: usize = 0;
        assert(located@.take(0) =~= seq![]);
        while i < located.len()
            invariant
                i <= located.len(),
                positions@ == found_positions(located@.take(i as int)),
            decreases located.len() - i,
        {
            assert(located@.take(i + 1).drop_last() =~= located@.take(i as int));
            if let Some(position) = located[i].1 {
                positions.insert(located[i].0, position);
            }
            i += 1;
        }
        assert(located@.take(i as int) =~= located@);
        Ok(positions)
    }
}

// ---- laws ----

/// The calls of the captures of Gray-code patterns: one each.
proof fn lemma_code_calls(window: usize, codes: nat)
    requires
        codes <= usize::MAX,
    ensures
        camera_calls(
            seq![SearchStep::Expose(scene_exposure(Scene::Pattern))] + code_captures(window, codes),
        ) == setup_calls(Scene::Pattern) + Seq::new(codes, |i: int| CameraCall::Capture),
    decreases codes,
{
    let first = seq![SearchStep::Expose(scene_exposure(Scene::Pattern))];
    let steps = first + code_captures(window, codes);
    if codes == 0 {
        assert(steps =~= first);
        assert(first.drop_last() =~= seq![]);
        reveal_with_fuel(camera_calls, 2);
        assert(camera_calls(steps) =~= setup_calls(Scene::Pattern) + Seq::new(
            codes,
            |i: int| CameraCall::Capture,
        ));
    } else {
        let fewer = (codes - 1) as nat;
        lemma_code_calls(window, fewer);
        assert(steps.drop_last() =~= first + code_captures(window, fewer));
        assert(camera_calls(steps) =~= setup_calls(Scene::Pattern) + Seq::new(
            codes,
            |i: int| CameraCall::Capture,
        ));
    }
}

/// A search that goes on looks and asks in turn.
proof fn lemma_search_alternates(states: Seq<BoardSearch>, events: Seq<SearchEvent>, i: int)
    requires
        search_run(states, events),
        0 <= i < events.len(),
    ensures
        i % 2 == 0 ==> states[i] is Looking,
        i % 2 == 1 ==> states[i] is Asking,
    decreases i,
{
    if i > 0 {
        lemma_search_alternates(states, events, i - 1);
        assert(states[i - 1].awaits(events[i - 1]) && BoardSearch::becomes(events[i - 1], states[i]));
        assert(states[i].awaits(events[i]));
    }
}

/// While a search goes on, all calls are looks at the dark board.
proof fn lemma_run_calls(
    states: Seq<BoardSearch>,
    events: Seq<SearchEvent>,
    window: usize,
    codes: nat,
    n: nat,
)
    requires
        search_run(states, events),
        n <= events.len(),
    ensures
        run_calls(states.take(n as int), window, codes) == look_calls((n + 1) / 2),
    decreases n,
{
    if n > 0 {
        let fewer = (n - 1) as nat;
        lemma_run_calls(states, events, window, codes, fewer);
        lemma_search_alternates(states, events, fewer as int);
        let seen = states.take(n as int);
        assert(seen.drop_last() =~= states.take(fewer as int));
        let steps = states[fewer as int].plan(window, codes);
        reveal_with_fuel(camera_calls, 4);
        if fewer % 2 == 0 {
            assert(steps.drop_last().drop_last().drop_last() =~= seq![]);
            assert(camera_calls(steps) =~= setup_calls(Scene::DarkBoard).push(CameraCall::Capture));
            assert((n + 1) / 2 == (fewer + 1) / 2 + 1);
        } else {
            assert(steps.drop_last() =~= seq![]);
            assert(camera_calls(steps) =~= seq![]);
            assert((n + 1) / 2 == (fewer + 1) / 2);
        }
        assert(run_calls(seen, window, codes) =~= look_calls((n + 1) / 2));
    } else {
        assert(states.take(0) =~= seq![]);
    }
}

/// Where the board is found at the k-th look, the calls on the external camera are
/// k times the setup for the dark board and one capture, then the setup for the
/// patterns, once, and then exactly one capture per pattern. Looks and keys take
/// turns, so a search of n events that ends in a look has had (n + 1) / 2 of them.
pub proof fn law_calls_of_a_search_that_succeeds(
    states: Seq<BoardSearch>,
    events: Seq<SearchEvent>,
    window: usize,
    codes: nat,
)
    requires
        search_run(states, events),
        states.last() is Found,
        codes <= usize::MAX,
    ensures
        events.len() % 2 == 1,
        run_calls(states, window, codes) == look_calls((events.len() + 1) / 2) + setup_calls(
            Scene::Pattern,
        ) + Seq::new(codes, |i: int| CameraCall::Capture),
{
    let n = events.len();
    assert(n > 0);
    lemma_search_alternates(states, events, n - 1);
    assert(states[n - 1].awaits(events[n - 1]) && BoardSearch::becomes(events[n - 1], states[n as int]));
    lemma_run_calls(states, events, window, codes, n);
    lemma_code_calls(window, codes);
    assert(states.drop_last() =~= states.take(n as int));
    assert(run_calls(states, window, codes) =~= look_calls((n + 1) / 2) + setup_calls(Scene::Pattern)
        + Seq::new(codes, |i: int| CameraCall::Capture));
}

/// Where the operator cancels after k looks, those k looks are all the calls on the
/// external camera, and no pattern is captured.
pub proof fn law_calls_of_a_search_that_is_cancelled(
    states: Seq<BoardSearch>,
    events: Seq<SearchEvent>,
    window: usize,
    codes: nat,
)
    requires
        search_run(states, events),
        states.last() is Cancelled,
    ensures
        events.len() % 2 == 0,
        run_calls(states, window, codes) == look_calls(events.len() / 2),
{
    let n = events.len();
    assert(n > 0);
    lemma_search_alternates(states, events, n - 1);
    assert(states[n - 1].awaits(events[n - 1]) && BoardSearch::becomes(events[n - 1], states[n as int]));
    lemma_run_calls(states, events, window, codes, n);
    assert(states.drop_last() =~= states.take(n as int));
    assert(run_calls(states, window, codes) =~= look_calls(n / 2));
}

/// Ordering corners that are in order changes nothing.
pub proof fn law_ordering_settles(corners: Seq<Point2f>)
    requires
        corners.len() > 0,
    ensures
        ordered(ordered(corners)) == ordered(corners),
        !point_after(ordered(corners).first(), ordered(corners).last()),
{
    let turned = corners.reverse();
    assert(turned.first() == corners.last());
    assert(turned.last() == corners.first());
}

/// A board gives the same corners in the same order, whichever end the detector
/// began at, unless the order of the two ends is undecided.
pub proof fn law_ordering_ignores_direction(corners: Seq<Point2f>)
    requires
        corners.len() > 0,
        point_after(corners.first(), corners.last()) || point_after(corners.last(), corners.first()),
    ensures
        ordered(corners.reverse()) == ordered(corners),
{
    let turned = corners.reverse();
    assert(turned.first() == corners.last());
    assert(turned.last() == corners.first());
    assert(turned.reverse() =~= corners);
}

/// Every projector is set up, and all are blanked but the target.
pub proof fn law_only_target_lit(count: int, target: int, p: int)
    requires
        0 <= p < count <= usize::MAX,
    ensures
        windows_set_up(count, target).contains(WindowStep::SetUp(p as usize)),
        windows_set_up(count, target).contains(WindowStep::Blank(p as usize)) <==> p != target,
    decreases count,
{
    let steps = windows_set_up(count, target);
    let before = windows_set_up(count - 1, target);
    let last = (count - 1) as usize;
    if p == count - 1 {
        assert(steps[before.len() as int] == WindowStep::SetUp(last));
        if p != target {
            assert(steps[before.len() as int + 1] == WindowStep::Blank(last));
        } else {
            lemma_no_later_window(count - 1, target, p);
            assert forall|i: int| 0 <= i < steps.len() implies steps[i] != WindowStep::Blank(
                p as usize,
            ) by {
                if i < before.len() {
                    assert(before.contains(before[i]));
                }
            }
        }
    } else {
        law_only_target_lit(count - 1, target, p);
        let i = choose|i: int| 0 <= i < before.len() && before[i] == WindowStep::SetUp(p as usize);
        assert(steps[i] == WindowStep::SetUp(p as usize));
        if p != target {
            let j = choose|j: int|
                0 <= j < before.len() && before[j] == WindowStep::Blank(p as usize);
            assert(steps[j] == WindowStep::Blank(p as usize));
        } else {
            assert forall|j: int| 0 <= j < steps.len() implies steps[j] != WindowStep::Blank(
                p as usize,
            ) by {
                if j < before.len() {
                    assert(before.contains(before[j]));
                }
            }
        }
    }
}

/// Windows that are not yet set up are not blanked either.
proof fn lemma_no_later_window(count: int, target: int, p: int)
    requires
        0 <= count <= p <= usize::MAX,
    ensures
        !windows_set_up(count, target).contains(WindowStep::Blank(p as usize)),
    decreases count,
{
    if count > 0 {
        lemma_no_later_window(count - 1, target, p);
        let steps = windows_set_up(count, target);
        let before = windows_set_up(count - 1, target);
        assert forall|j: int| 0 <= j < steps.len() implies steps[j] != WindowStep::Blank(
            p as usize,
        ) by {
            if j < before.len() {
                assert(before.contains(before[j]));
            }
        }
    }
}

/// The grid points around a cell of the board hold the cell's own four corners,
/// and are at most 16: enough points for a homography, and all of them near.
pub proof fn law_neighbourhood_holds_cell(pattern_size: Size, row: i32, col: i32)
    requires
        0 <= row <= pattern_size.height - 2,
        0 <= col <= pattern_size.width - 2,
    ensures
        ({
            let around = points_around(pattern_size, (row, col));
            let w = pattern_size.width as int;
            &&& 4 <= around.len() <= 16
            &&& around.contains(grid_point(w, row as int, col as int))
            &&& around.contains(grid_point(w, row as int, col + 1))
            &&& around.contains(grid_point(w, row + 1, col as int))
            &&& around.contains(grid_point(w, row + 1, col + 1))
        }),
{
    let rows = neighbourhood(row as int, pattern_size.height as int);
    let cols = neighbourhood(col as int, pattern_size.width as int);
    assert(2 <= extent(rows) <= 4 && 2 <= extent(cols) <= 4);
    assert(4 <= extent(rows) * extent(cols) <= 16) by (nonlinear_arith)
        requires
            2 <= extent(rows) <= 4,
            2 <= extent(cols) <= 4,
    ;
    lemma_around_holds(pattern_size, (row, col), row, col);
    lemma_around_holds(pattern_size, (row, col), row, (col + 1) as i32);
    lemma_around_holds(pattern_size, (row, col), (row + 1) as i32, col);
    lemma_around_holds(pattern_size, (row, col), (row + 1) as i32, (col + 1) as i32);
}

/// A grid point of the neighbourhood is listed.
proof fn lemma_around_holds(pattern_size: Size, cell: (i32, i32), row: i32, col: i32)
    requires
        neighbourhood(cell.0 as int, pattern_size.height as int).start <= row <= neighbourhood(
            cell.0 as int,
            pattern_size.height as int,
        ).end,
        neighbourhood(cell.1 as int, pattern_size.width as int).start <= col <= neighbourhood(
            cell.1 as int,
            pattern_size.width as int,
        ).end,
    ensures
        points_around(pattern_size, cell).contains(
            grid_point(pattern_size.width as int, row as int, col as int),
        ),
{
    let rows = neighbourhood(cell.0 as int, pattern_size.height as int);
    let cols = neighbourhood(cell.1 as int, pattern_size.width as int);
    let places = grid_of(rows, cols);
    law_grid_covers(rows, cols, row, col);
    let k = choose|k: int| 0 <= k < places.len() && places[k] == (row, col);
    assert(points_around(pattern_size, cell)[k] == grid_point(
        pattern_size.width as int,
        row as int,
        col as int,
    ));
}

/// A pixel is decoded exactly if it lies in the image and at most half a patch
/// from the corner, in x and in y.
pub proof fn law_patch_is_clipped_square(corner: Point2f, image_size: Size, x: i32, y: i32)
    requires
        patch_fits(corner),
        image_size.width >= 0,
        image_size.height >= 0,
    ensures
        patch(corner, image_size).contains((x, y)) <==> {
            &&& 0 <= x < image_size.width
            &&& 0 <= y < image_size.height
            &&& -32 <= x - corner.x.nearest() <= 32
            &&& -32 <= y - corner.y.nearest() <= 32
        },
{
    law_grid_covers(
        patch_span(corner.x.nearest(), image_size.width as int),
        patch_span(corner.y.nearest(), image_size.height as int),
        x,
        y,
    );
}

/// The positions belong to the cameras that they were located for: a camera has one
/// exactly if it was located, and where no camera occurs twice it is the one located
/// for it. Of a camera that occurs more than once, the last that was located counts.
pub proof fn law_positions_belong_to_cameras(
    board: &ExternalCalibrator,
    located: &Vec<(CameraId, Option<Point2f>)>,
    key: i32,
    r: Result<HashMap<CameraId, Point2f>, ExternalError>,
    c: CameraId,
    i: int,
)
    requires
        call_ensures(ExternalCalibrator::find_effective_camera_positions, (board, located, key), r),
        key != 110,
    ensures
        r is Ok,
        r->Ok_0@.contains_key(c) <==> exists|j: int|
            0 <= j < located@.len() && (#[trigger] located@[j]).0 == c && located@[j].1 is Some,
        0 <= i < located@.len() && located@[i].0 == c && located@[i].1 is Some && (forall|j: int|
            i < j < located@.len() && (#[trigger] located@[j]).0 == c ==> located@[j].1 is None)
            ==> r->Ok_0@[c] == located@[i].1->Some_0,
{
    lemma_found_camera(located@, c);
    if 0 <= i < located@.len() && located@[i].0 == c && located@[i].1 is Some && (forall|j: int|
        i < j < located@.len() && (#[trigger] located@[j]).0 == c ==> located@[j].1 is None) {
        lemma_found_position(located@, i);
    }
}

/// Who is among the positions found.
proof fn lemma_found_camera(located: Seq<(CameraId, Option<Point2f>)>, c: CameraId)
    ensures
        found_positions(located).contains_key(c) <==> exists|j: int|
            0 <= j < located.len() && (#[trigger] located[j]).0 == c && located[j].1 is Some,
    decreases located.len(),
{
    if located.len() > 0 {
        let head = located.drop_last();
        let last = located.last();
        lemma_found_camera(head, c);
        if last.0 == c && last.1 is Some {
            assert(located[located.len() - 1].0 == c);
        } else if found_positions(head).contains_key(c) {
            let j = choose|j: int|
                0 <= j < head.len() && (#[trigger] head[j]).0 == c && head[j].1 is Some;
            assert(located[j] == head[j]);
        } else {
            assert forall|j: int|
                0 <= j < located.len() && (#[trigger] located[j]).0 == c implies located[j].1 is None by {
                if j < head.len() {
                    assert(head[j] == located[j]);
                }
            }
        }
    }
}

/// Where a camera is found: where it was located last.
proof fn lemma_found_position(located: Seq<(CameraId, Option<Point2f>)>, i: int)
    requires
        0 <= i < located.len(),
        located[i].1 is Some,
        forall|j: int|
            i < j < located.len() && (#[trigger] located[j]).0 == located[i].0 ==> located[j].1 is None,
    ensures
        found_positions(located)[located[i].0] == located[i].1->Some_0,
    decreases located.len(),
{
    let head = located.drop_last();
    if i < located.len() - 1 {
        assert(head[i] == located[i]);
        assert forall|j: int|
            i < j < head.len() && (#[trigger] head[j]).0 == head[i].0 implies head[j].1 is None by {
            assert(head[j] == located[j]);
        }
        lemma_found_position(head, i);
        assert(located[located.len() - 1] == located.last());
    }
}

/// A discarded input gives no positions.
pub proof fn law_discarded_positions(
    board: &ExternalCalibrator,
    located: &Vec<(CameraId, Option<Point2f>)>,
    r: Result<HashMap<CameraId, Point2f>, ExternalError>,
)
    requires
        call_ensures(ExternalCalibrator::find_effective_camera_positions, (board, located, 110), r),
    ensures
        r is Err,
        r->Err_0 == ExternalError::PositionsCancelled,
{
}

/// Corners keep their neighbours: they come out as they are or back to front, and back
/// to front exactly if the first lies right of the last, or straight below it.
pub proof fn law_corners_are_turned(corners: Vec<Point2f>, r: Vec<Point2f>)
    requires
        call_ensures(order_corners, (corners,), r),
        corners@.len() > 0,
        !corners@[0].x.nan(),
        !corners@[0].y.nan(),
        !corners@[corners@.len() - 1].x.nan(),
        !corners@[corners@.len() - 1].y.nan(),
    ensures
        r@.len() == corners@.len(),
        ({
            let n = corners@.len();
            let (first, last) = (corners@[0], corners@[n - 1]);
            let turned = first.x.value() > last.x.value() || first.x.value() == last.x.value()
                && first.y.value() > last.y.value();
            &&& turned ==> forall|i: int| 0 <= i < n ==> #[trigger] r@[i] == corners@[n - 1 - i]
            &&& !turned ==> forall|i: int| 0 <= i < n ==> #[trigger] r@[i] == corners@[i]
        }),
{
    assert(corners@.first() == corners@[0] && corners@.last() == corners@[corners@.len() - 1]);
}

/// A board that was found has its corners put in order, and only such a board is
/// accepted.
pub proof fn law_found_corners_are_accepted(
    found: bool,
    corners: Vec<Point2f>,
    r: Result<Vec<Point2f>, ExternalError>,
    turned: Vec<Point2f>,
)
    requires
        call_ensures(accept_corners, (found, corners), r),
        call_ensures(order_corners, (corners,), turned),
    ensures
        found ==> r is Ok && r->Ok_0@ == turned@,
        !found ==> r is Err,
{
}

/// A look that finds the board ends the search with its corners in order; one that
/// does not asks the operator, who ends it with `q` and has it repeated with any other
/// key, or none.
pub proof fn law_search_goes_on(
    search: BoardSearch,
    event: SearchEvent,
    r: BoardSearch,
    corners: Vec<Point2f>,
    turned: Vec<Point2f>,
)
    requires
        call_ensures(BoardSearch::next, (search, event), r),
        call_ensures(order_corners, (corners,), turned),
    ensures
        (event matches SearchEvent::Looked { found, corners: seen, image_size } && found && seen
            == corners) ==> r is Found && r->Found_corners@ == turned@ && r->Found_image_size
            == event->image_size,
        event matches SearchEvent::Looked { found, .. } && !found ==> r is Asking,
        event matches SearchEvent::Key(key) && key == 113 ==> r is Cancelled,
        event matches SearchEvent::Key(key) && key != 113 ==> r is Looking,
{
}

/// What is done in each state of the search: while looking, the window goes dark, the
/// camera is set up for the dark board and one frame is searched; when asking, 5
/// seconds are waited for a key; once found, the camera is set up for patterns, once,
/// and then every Gray-code pattern is captured in turn, on the same window.
pub proof fn law_search_steps(
    search: &BoardSearch,
    window: usize,
    codes: usize,
    steps: Vec<SearchStep>,
)
    requires
        call_ensures(BoardSearch::steps, (search, window, codes), steps),
    ensures
        search is Looking ==> steps@.len() == 3 && steps@[0] == SearchStep::Darken(window)
            && steps@[1] == SearchStep::Expose(scene_exposure(Scene::DarkBoard)) && steps@[2]
            == SearchStep::Look(window),
        search is Asking ==> steps@.len() == 1 && steps@[0] == SearchStep::Ask(5000),
        search is Found ==> steps@.len() == codes + 1 && steps@[0] == SearchStep::Expose(
            scene_exposure(Scene::Pattern),
        ) && forall|i: int|
            0 <= i < codes ==> #[trigger] steps@[i + 1] == (SearchStep::CaptureCode {
                window,
                code: i as usize,
            }),
        search is Cancelled ==> steps@.len() == 0,
{
}

/// What is done to the window of projector `p`, in order.
pub open spec fn window_steps(steps: Seq<WindowStep>, p: usize) -> Seq<WindowStep>
    decreases steps.len(),
{
    if steps.len() == 0 {
        seq![]
    } else {
        let before = window_steps(steps.drop_last(), p);
        match steps.last() {
            WindowStep::SetUp(window) | WindowStep::Blank(window) => if window == p {
                before.push(steps.last())
            } else {
                before
            },
            WindowStep::Repaint => before.push(steps.last()),
        }
    }
}

/// Every projector's window is set up, then blanked unless it is the target's, and
/// then all repaint.
pub proof fn law_all_but_the_target_are_blanked(
    count: usize,
    target: usize,
    steps: Vec<WindowStep>,
    p: usize,
)
    requires
        call_ensures(isolate_projector, (count, target), steps),
        p < count,
    ensures
        p == target ==> window_steps(steps@, p) == seq![WindowStep::SetUp(p), WindowStep::Repaint],
        p != target ==> window_steps(steps@, p) == seq![
            WindowStep::SetUp(p),
            WindowStep::Blank(p),
            WindowStep::Repaint,
        ],
{
    let before = windows_set_up(count as int, target as int);
    assert(steps@.drop_last() =~= before);
    lemma_window_steps(count, target, p);
    assert(window_steps(steps@, p) =~= window_steps(before, p).push(WindowStep::Repaint));
}

/// What is done to a window before the repaint.
proof fn lemma_window_steps(count: usize, target: usize, p: usize)
    ensures
        p >= count ==> window_steps(windows_set_up(count as int, target as int), p) == Seq::<
            WindowStep,
        >::empty(),
        p < count && p == target ==> window_steps(windows_set_up(count as int, target as int), p)
            == seq![WindowStep::SetUp(p)],
        p < count && p != target ==> window_steps(windows_set_up(count as int, target as int), p)
            == seq![WindowStep::SetUp(p), WindowStep::Blank(p)],
    decreases count,
{
    let steps = windows_set_up(count as int, target as int);
    if count > 0 {
        let last = (count - 1) as usize;
        let before = windows_set_up(last as int, target as int);
        lemma_window_steps(last, target, p);
        let set_up = before.push(WindowStep::SetUp(last));
        assert(set_up.drop_last() =~= before);
        assert(window_steps(set_up, p) == if last == p {
            window_steps(before, p).push(WindowStep::SetUp(p))
        } else {
            window_steps(before, p)
        });
        if last != target {
            assert(steps == set_up.push(WindowStep::Blank(last)));
            assert(steps.drop_last() =~= set_up);
            assert(window_steps(steps, p) == if last == p {
                window_steps(set_up, p).push(WindowStep::Blank(p))
            } else {
                window_steps(set_up, p)
            });
        } else {
            assert(steps == set_up);
        }
    }
}

/// Of several lines the one with most votes is kept, and the first of those with as
/// many.
pub proof fn law_strongest_line_wins(
    axis: Axis,
    votes: &Vec<F32>,
    r: Result<usize, ExternalError>,
    j: int,
)
    requires
        call_ensures(strongest_line, (axis, votes), r),
        0 <= j < votes@.len(),
    ensures
        r is Ok,
        r->Ok_0 < votes@.len(),
        votes@[j].value() <= votes@[r->Ok_0 as int].value(),
        votes@[j].value() == votes@[r->Ok_0 as int].value() ==> r->Ok_0 <= j,
{
    if votes@[j].value() == votes@[r->Ok_0 as int].value() && j < r->Ok_0 {
        assert(votes@[j].value() < votes@[r->Ok_0 as int].value());
    }
}

/// The lines through a projector pixel: the camera is set up for patterns, and then
/// sees, on the first window, one vertical line from the top to the bottom of the
/// projector image, at the rounded x, and one horizontal line from its left to its
/// right, at the rounded y.
pub proof fn law_lines_cross_at_the_pixel(
    board: &ExternalCalibrator,
    position: Point2f,
    steps: Vec<LocateStep>,
    x: i32,
    y: i32,
)
    requires
        call_ensures(ExternalCalibrator::locate_steps, (board, position), steps),
        call_ensures(F32::round, (position.x,), x),
        call_ensures(F32::round, (position.y,), y),
        board.projector_size.width >= 0,
        board.projector_size.height >= 0,
    ensures
        steps@.len() == 3,
        steps@[0] == LocateStep::Expose(scene_exposure(Scene::Pattern)),
        steps@[1] is Capture,
        steps@[2] is Capture,
        steps@[1]->window == 0,
        steps@[2]->window == 0,
        steps@[1]->axis == Axis::X,
        steps@[2]->axis == Axis::Y,
        ({
            let (down, across) = (steps@[1]->strokes@, steps@[2]->strokes@);
            &&& down.len() == 1 && across.len() == 1
            &&& down[0].from.x == x && down[0].to.x == x
            &&& down[0].from.y == 0 && down[0].to.y == board.projector_size.height - 1
            &&& across[0].from.y == y && across[0].to.y == y
            &&& across[0].from.x == 0 && across[0].to.x == board.projector_size.width - 1
        }),
{
}

/// The cells of a board are listed row by row, and each has the indices of the four
/// corners around it, in a list of corners that runs row by row too.
pub proof fn law_cells_have_their_corners(
    board: &ExternalCalibrator,
    corner_count: usize,
    r: Result<Vec<Cell>, ExternalError>,
    row: int,
    col: int,
)
    requires
        call_ensures(ExternalCalibrator::board_cells, (board, corner_count), r),
        r is Ok,
        0 <= row < board.pattern_size.height - 1,
        0 <= col < board.pattern_size.width - 1,
    ensures
        ({
            let (w, h) = (board.pattern_size.width as int, board.pattern_size.height as int);
            let cell = r->Ok_0@[row * (w - 1) + col];
            &&& r->Ok_0@.len() == (h - 1) * (w - 1)
            &&& cell.row == row && cell.col == col
            &&& cell.top_left == row * w + col
            &&& cell.top_right == row * w + col + 1
            &&& cell.bottom_left == (row + 1) * w + col
            &&& cell.bottom_right == (row + 1) * w + col + 1
            &&& cell.bottom_right < corner_count
        }),
{
    let (w, h) = (board.pattern_size.width as int, board.pattern_size.height as int);
    lemma_cell_index(board.pattern_size, row, col, row * (w - 1) + col);
    lemma_corner_index(w, h, row, col);
    lemma_corner_index(w, h, row + 1, col + 1);
    assert((row + 1) * w == row * w + w) by (nonlinear_arith);
}

/// A board that lacks corners is an error, which names a corner of the board that is
/// not there and how many there are.
pub proof fn law_missing_corner_is_missing(
    board: &ExternalCalibrator,
    corner_count: usize,
    r: Result<Vec<Cell>, ExternalError>,
)
    requires
        call_ensures(ExternalCalibrator::board_cells, (board, corner_count), r),
        board.pattern_size.width > 1,
        board.pattern_size.height > 1,
    ensures
        r is Err <==> corner_count < board.pattern_size.height * board.pattern_size.width,
        r is Err ==> r->Err_0 is MissingCorner && r->Err_0->count == corner_count && r->Err_0->index
            >= corner_count,
{
}

/// The grid points around a cell are those at most one row and column before it and two
/// behind, as far as the board has them; each knows its corner.
pub proof fn law_neighbourhood(
    board: &ExternalCalibrator,
    cell: (i32, i32),
    corner_count: usize,
    r: Result<Vec<GridPoint>, ExternalError>,
    row: i32,
    col: i32,
)
    requires
        call_ensures(ExternalCalibrator::get_local_correspondence, (board, cell, corner_count), r),
        r is Ok,
        i32::MIN < cell.0 <= i32::MAX - 2,
        i32::MIN < cell.1 <= i32::MAX - 2,
        0 < board.pattern_size.width,
        0 < board.pattern_size.height,
        board.pattern_size.height * board.pattern_size.width <= i32::MAX,
    ensures
        (exists|k: int|
            0 <= k < r->Ok_0@.len() && (#[trigger] r->Ok_0@[k]).row == row && r->Ok_0@[k].col == col)
            <==> {
            &&& 0 <= row < board.pattern_size.height
            &&& 0 <= col < board.pattern_size.width
            &&& cell.0 - 1 <= row <= cell.0 + 2
            &&& cell.1 - 1 <= col <= cell.1 + 2
        },
        forall|k: int|
            0 <= k < r->Ok_0@.len() ==> (#[trigger] r->Ok_0@[k]).corner == r->Ok_0@[k].row
                * board.pattern_size.width + r->Ok_0@[k].col,
        forall|k: int|
            0 <= k < r->Ok_0@.len() - 1 ==> (#[trigger] r->Ok_0@[k + 1]).corner > r->Ok_0@[k].corner,
{
    let size = board.pattern_size;
    let (w, h) = (size.width as int, size.height as int);
    let places = places_around(size, cell);
    let points = points_around(size, cell);
    let (rows, cols) = (neighbourhood(cell.0 as int, h), neighbourhood(cell.1 as int, w));
    law_grid_covers(rows, cols, row, col);
    if exists|k: int|
        0 <= k < r->Ok_0@.len() && (#[trigger] r->Ok_0@[k]).row == row && r->Ok_0@[k].col == col {
        let k = choose|k: int|
            0 <= k < r->Ok_0@.len() && (#[trigger] r->Ok_0@[k]).row == row && r->Ok_0@[k].col == col;
        assert(points[k] == grid_point(w, places[k].0 as int, places[k].1 as int));
        assert(places[k] == (row, col));
        assert(places.contains((row, col)));
    }
    if places.contains((row, col)) {
        let k = choose|k: int| 0 <= k < places.len() && places[k] == (row, col);
        assert(points[k].row == row && points[k].col == col);
        assert(r->Ok_0@[k].row == row);
    }
    assert forall|k: int| 0 <= k < r->Ok_0@.len() implies (#[trigger] r->Ok_0@[k]).corner
        == r->Ok_0@[k].row * size.width + r->Ok_0@[k].col by {
        lemma_grid_index(rows, cols, k);
        lemma_corner_index(w, h, places[k].0 as int, places[k].1 as int);
        assert(points[k] == grid_point(w, places[k].0 as int, places[k].1 as int));
    }
    assert forall|k: int| 0 <= k < r->Ok_0@.len() - 1 implies (#[trigger] r->Ok_0@[k + 1]).corner
        > r->Ok_0@[k].corner by {
        let (a, b) = (places[k], places[k + 1]);
        lemma_grid_index(rows, cols, k);
        lemma_grid_index(rows, cols, k + 1);
        crate::grid::law_grid_runs_row_by_row(rows, cols, k);
        lemma_corner_index(w, h, a.0 as int, a.1 as int);
        lemma_corner_index(w, h, b.0 as int, b.1 as int);
        assert(points[k] == grid_point(w, a.0 as int, a.1 as int));
        assert(points[k + 1] == grid_point(w, b.0 as int, b.1 as int));
        if a.0 < b.0 {
            assert((a.0 + 1) * w <= b.0 * w && (a.0 + 1) * w == a.0 * w + w) by (nonlinear_arith)
                requires
                    a.0 + 1 <= b.0,
                    0 < w,
            ;
        }
    }
}

/// A pixel is decoded for a corner exactly if it lies in the image and at most 32
/// pixels from the rounded corner, in x and in y.
pub proof fn law_patches_surround_corners(
    corners: &Vec<Point2f>,
    image_size: Size,
    patches: Vec<Vec<(i32, i32)>>,
    i: int,
    cx: i32,
    cy: i32,
    x: i32,
    y: i32,
)
    requires
        call_ensures(
            get_projector_image_coordinate_on_checkerboard_corners,
            (corners, image_size),
            patches,
        ),
        0 <= i < corners@.len(),
        call_ensures(F32::round, (corners@[i].x,), cx),
        call_ensures(F32::round, (corners@[i].y,), cy),
        i32::MIN + 32 <= cx <= i32::MAX - 32,
        i32::MIN + 32 <= cy <= i32::MAX - 32,
        image_size.width >= 0,
        image_size.height >= 0,
    ensures
        patches@.len() == corners@.len(),
        patches@[i]@.contains((x, y)) <==> {
            &&& 0 <= x < image_size.width
            &&& 0 <= y < image_size.height
            &&& -32 <= x - cx <= 32
            &&& -32 <= y - cy <= 32
        },
{
    law_patch_is_clipped_square(corners@[i], image_size, x, y);
}

/// The pixels of a patch are paired with what they decode to, one by one, each
/// coordinate as the nearest number.
pub proof fn law_patch_pairs(
    pixels: &Vec<(i32, i32)>,
    decoded: &Vec<Point2i>,
    r: Correspondences,
    i: int,
)
    requires
        call_ensures(patch_correspondences, (pixels, decoded), r),
        pixels@.len() == decoded@.len(),
        0 <= i < pixels@.len(),
    ensures
        r.from@.len() == pixels@.len(),
        r.to@.len() == pixels@.len(),
        whole_rounds_to(pixels@[i].0 as int, r.from@[i].x),
        whole_rounds_to(pixels@[i].1 as int, r.from@[i].y),
        whole_rounds_to(decoded@[i].x as int, r.to@[i].x),
        whole_rounds_to(decoded@[i].y as int, r.to@[i].y),
{
    law_nearest_single_rounds(pixels@[i].0);
    law_nearest_single_rounds(pixels@[i].1);
    law_nearest_single_rounds(decoded@[i].x);
    law_nearest_single_rounds(decoded@[i].y);
}

/// The board is photographed while the second projector lights it and the first is
/// dark: the light is on before, has time to settle, and is off behind.
pub proof fn law_board_is_lit(steps: Vec<BoardStep>, e: Exposure)
    requires
        call_ensures(board_steps, (), steps),
        call_ensures(Scene::exposure, (Scene::LitBoard,), e),
    ensures
        steps@.len() == 6,
        steps@[0] == BoardStep::Expose(e),
        steps@[1] == BoardStep::White(1),
        steps@[2] == BoardStep::Wait(300),
        steps@[3] == BoardStep::Capture(0),
        steps@[4] == BoardStep::Black(1),
        steps@[5] == BoardStep::Wait(300),
{
}

/// A search has an outcome once it has found the board, which is what it found, or was
/// given up.
pub proof fn law_search_outcome(
    search: BoardSearch,
    r: Option<Result<(Vec<Point2f>, Size), ExternalError>>,
)
    requires
        call_ensures(BoardSearch::outcome, (search,), r),
    ensures
        r is None <==> search is Looking || search is Asking,
        search is Found ==> r->Some_0 is Ok && r->Some_0->Ok_0.0 == search->Found_corners
            && r->Some_0->Ok_0.1 == search->Found_image_size,
        search is Cancelled ==> r->Some_0 is Err && r->Some_0->Err_0 is DetectionCancelled,
{
}

/// The cell that is found is that at the least distance, and the first of several: a
/// distance counts if it is a number below the largest finite one.
pub proof fn law_nearest_cell(distances: Seq<F32>, largest: F32, i: int)
    requires
        largest.bits == 0x7f7f_ffff,
        0 <= i < distances.len(),
        !distances[i].nan(),
        distances[i].value() < largest.value(),
        forall|j: int|
            0 <= j < distances.len() && !(#[trigger] distances[j]).nan() ==> distances[i].value()
                <= distances[j].value(),
        forall|j: int|
            0 <= j < i && !(#[trigger] distances[j]).nan() ==> distances[i].value()
                < distances[j].value(),
    ensures
        forall|k: int| #[trigger] nearest(distances, k) <==> k == i,
{
    assert(largest == largest_single());
    assert(nearest(distances, i));
    assert forall|k: int| #[trigger] nearest(distances, k) implies k == i by {
        lemma_one_nearest(distances, i, k);
    }
}

/// One distance is the first of the smallest.
proof fn lemma_one_nearest(distances: Seq<F32>, i: int, k: int)
    requires
        nearest(distances, i),
        nearest(distances, k),
    ensures
        i == k,
{
    let (a, b) = (distances[i], distances[k]);
    assert(!a.nan() && !b.nan());
    assert(a.value() <= b.value() && b.value() <= a.value());
}

/// Without a distance that counts, it is the cell in row 0 and column 0.
pub proof fn law_no_cell_is_near(
    cells: &Vec<Cell>,
    distances: &Vec<F32>,
    cell: (i32, i32),
    largest: F32,
)
    requires
        call_ensures(find_containing_cell, (cells, distances), cell),
        largest.bits == 0x7f7f_ffff,
        forall|j: int|
            0 <= j < distances@.len() ==> (#[trigger] distances@[j]).nan() || distances@[j].value()
                >= largest.value(),
    ensures
        cell.0 == 0,
        cell.1 == 0,
{
    assert(largest == largest_single());
}

/// A pixel is in the patch of a corner exactly if it lies in the image and at most 32
/// pixels from the rounded corner, in x and in y; no pixel is listed twice.
pub proof fn law_patch_pixels(
    corner: Point2f,
    image_size: Size,
    pixels: Vec<(i32, i32)>,
    cx: i32,
    cy: i32,
    x: i32,
    y: i32,
)
    requires
        call_ensures(patch_pixels, (corner, image_size), pixels),
        call_ensures(F32::round, (corner.x,), cx),
        call_ensures(F32::round, (corner.y,), cy),
        i32::MIN + 32 <= cx <= i32::MAX - 32,
        i32::MIN + 32 <= cy <= i32::MAX - 32,
        image_size.width >= 0,
        image_size.height >= 0,
    ensures
        pixels@.contains((x, y)) <==> {
            &&& 0 <= x < image_size.width
            &&& 0 <= y < image_size.height
            &&& -32 <= x - cx <= 32
            &&& -32 <= y - cy <= 32
        },
        pixels@.no_duplicates(),
{
    law_patch_is_clipped_square(corner, image_size, x, y);
    let (xs, ys) = (
        patch_span(corner.x.nearest(), image_size.width as int),
        patch_span(corner.y.nearest(), image_size.height as int),
    );
    assert forall|j: int, k: int|
        0 <= j < pixels@.len() && 0 <= k < pixels@.len() && pixels@[j] == pixels@[k] implies j
        == k by {
        crate::grid::law_grid_distinct(xs, ys, j, k);
    }
}

/// What an error says.
pub proof fn law_external_messages(e: ExternalError, r: String)
    requires
        call_ensures(ExternalError::message, (e,), r),
    ensures
        e is BoardNotDetected ==> r@ == "Checkerboard was not detected."@,
        e is DetectionCancelled ==> r@ == "checkerboard detection cancelled by user"@,
        e == ExternalError::NoLines(Axis::X) ==> r@ == "Couldn't find any lines on X."@,
        e == ExternalError::NoLines(Axis::Y) ==> r@ == "Couldn't find any lines on Y."@,
        e is PositionsCancelled ==> r@ == "cancelled this input by user"@,
        e is MissingCorner ==> r@ == "Index: "@ + decimal(e->index as nat) + " out of bounds: 0.."@
            + decimal(e->count as nat) + " (code: StsOutOfRange, -211)"@,
        e is WaitCancelled ==> r@ == "cancelled while waiting for the external camera"@,
{
}

/// Corners of which an end is no number stay as they are, unless the numbers that are
/// there decide.
pub proof fn law_corners_without_order_stay(corners: Vec<Point2f>, r: Vec<Point2f>)
    requires
        call_ensures(order_corners, (corners,), r),
        corners@.len() > 0,
        ({
            let (first, last) = (corners@[0], corners@[corners@.len() - 1]);
            ||| first.x.nan()
            ||| last.x.nan()
            ||| first.x.value() == last.x.value() && (first.y.nan() || last.y.nan())
        }),
    ensures
        r@ == corners@,
{
    assert(corners@.first() == corners@[0] && corners@.last() == corners@[corners@.len() - 1]);
}

/// Without a line there is none to keep.
pub proof fn law_no_line_no_result(axis: Axis, votes: &Vec<F32>, r: Result<usize, ExternalError>)
    requires
        call_ensures(strongest_line, (axis, votes), r),
        votes@.len() == 0,
    ensures
        r is Err,
        r->Err_0 == ExternalError::NoLines(axis),
{
}

/// The grid points around a cell are an error exactly if a corner of one of them is
/// missing. The error names a missing corner, and how many there are.
pub proof fn law_neighbourhood_is_there(
    board: &ExternalCalibrator,
    cell: (i32, i32),
    corner_count: usize,
    r: Result<Vec<GridPoint>, ExternalError>,
    row: i32,
    col: i32,
)
    requires
        call_ensures(ExternalCalibrator::get_local_correspondence, (board, cell, corner_count), r),
        i32::MIN < cell.0 <= i32::MAX - 2,
        i32::MIN < cell.1 <= i32::MAX - 2,
        0 < board.pattern_size.width,
        0 < board.pattern_size.height,
        board.pattern_size.height * board.pattern_size.width <= i32::MAX,
    ensures
        0 <= row < board.pattern_size.height && 0 <= col < board.pattern_size.width && cell.0 - 1
            <= row <= cell.0 + 2 && cell.1 - 1 <= col <= cell.1 + 2 && row
            * board.pattern_size.width + col >= corner_count ==> r is Err,
        corner_count >= board.pattern_size.height * board.pattern_size.width ==> r is Ok,
        r is Err ==> r->Err_0 is MissingCorner && r->Err_0->count == corner_count && r->Err_0->index
            >= corner_count,
{
    let size = board.pattern_size;
    let (w, h) = (size.width as int, size.height as int);
    let places = places_around(size, cell);
    let points = points_around(size, cell);
    let (rows, cols) = (neighbourhood(cell.0 as int, h), neighbourhood(cell.1 as int, w));
    law_grid_covers(rows, cols, row, col);
    if places.contains((row, col)) {
        let k = choose|k: int| 0 <= k < places.len() && places[k] == (row, col);
        lemma_corner_index(w, h, row as int, col as int);
        assert(points[k] == grid_point(w, row as int, col as int));
        assert(points_around(size, cell)[k].corner == row * w + col);
    }
    if corner_count >= h * w {
        assert forall|k: int| 0 <= k < points.len() implies (#[trigger] points_around(
            size,
            cell,
        )[k]).corner < corner_count by {
            lemma_grid_index(rows, cols, k);
            lemma_corner_index(w, h, places[k].0 as int, places[k].1 as int);
            assert(points[k] == grid_point(w, places[k].0 as int, places[k].1 as int));
        }
    }
}

/// Which corner of a board that lacks some is the first that is looked up: the first
/// that is not there; but where the first row is short and has two corners at least, the
/// first of the second row.
pub proof fn law_missing_corner_is_named(
    board: &ExternalCalibrator,
    corner_count: usize,
    r: Result<Vec<Cell>, ExternalError>,
)
    requires
        call_ensures(ExternalCalibrator::board_cells, (board, corner_count), r),
        board.pattern_size.width > 1,
        board.pattern_size.height > 1,
        board.pattern_size.height * board.pattern_size.width <= i32::MAX,
        corner_count < board.pattern_size.height * board.pattern_size.width,
    ensures
        r is Err,
        r->Err_0 is MissingCorner,
        r->Err_0->index == if 2 <= corner_count <= board.pattern_size.width {
            board.pattern_size.width as int
        } else {
            corner_count as int
        },
{
    let size = board.pattern_size;
    let (w, h) = (size.width as int, size.height as int);
    let cells = cells_of(size);
    let indices = cell_corners(cells);
    let index = r->Err_0->index;
    assert(first_missing(indices, corner_count, index));
    let i = choose|i: int|
        0 <= i < indices.len() && #[trigger] indices[i] == index && index >= corner_count && forall|
            j: int,
        |
            0 <= j < i ==> #[trigger] indices[j] < corner_count;
    let (k, n) = (i / 4, w - 1);
    let (row, col) = (k / n, k % n);
    lemma_cell_at(size, k);
    let cell = cells[k];
    assert(indices[i] == cell_corner(cell, i % 4));
    assert(i % 4 > 0 ==> indices[4 * k] < corner_count);
    assert(i % 4 > 1 ==> indices[4 * k + 1] < corner_count);
    assert(i % 4 > 2 ==> indices[4 * k + 2] < corner_count);
    if k == 0 {
        lemma_fundamental_div_mod_converse(0, n, 0, 0);
        assert(0 * w == 0 && 1 * w == w) by (nonlinear_arith);
    } else {
        lemma_cell_at(size, k - 1);
        assert(indices[4 * (k - 1) + 3] == cells[k - 1].bottom_right);
        assert(indices[4 * (k - 1) + 3] < corner_count);
        lemma_fundamental_div_mod(k, n);
        assert(row * n == n * row) by (nonlinear_arith);
        if col > 0 {
            lemma_fundamental_div_mod_converse(k - 1, n, row, col - 1);
        } else {
            assert((row - 1) * n == row * n - n) by (nonlinear_arith);
            lemma_fundamental_div_mod_converse(k - 1, n, row - 1, n - 1);
        }
        assert((row + 1) * w == row * w + w) by (nonlinear_arith);
        assert(0 <= row * w) by (nonlinear_arith)
            requires
                0 <= row,
                0 < w,
        ;
        if col == 0 {
            assert(row > 0) by (nonlinear_arith)
                requires
                    k == row * n,
                    k > 0,
                    n > 0,
                    row >= 0,
            ;
            assert(w <= row * w) by (nonlinear_arith)
                requires
                    0 < row,
                    0 < w,
            ;
        }
    }
}

/// The cell at a place of the list.
proof fn lemma_cell_at(size: Size, k: int)
    requires
        size.width > 1,
        size.height > 1,
        size.height * size.width <= i32::MAX,
        0 <= k < cells_of(size).len(),
    ensures
        ({
            let (w, n) = (size.width as int, size.width - 1);
            let (row, col) = (k / n, k % n);
            let cell = cells_of(size)[k];
            &&& 0 <= row < size.height - 1
            &&& 0 <= col < n
            &&& cell.top_left == row * w + col
            &&& cell.top_right == row * w + col + 1
            &&& cell.bottom_left == (row + 1) * w + col
            &&& cell.bottom_right == (row + 1) * w + col + 1
        }),
{
    let (w, h, n) = (size.width as int, size.height as int, size.width - 1);
    let (row, col) = (k / n, k % n);
    lemma_grid_index(cell_span(h), cell_span(w), k);
    lemma_fundamental_div_mod(k, n);
    assert(row * n == n * row) by (nonlinear_arith);
    lemma_cell_index(size, row, col, k);
    lemma_corner_index(w, h, row, col);
    lemma_corner_index(w, h, row, col + 1);
    lemma_corner_index(w, h, row + 1, col);
    lemma_corner_index(w, h, row + 1, col + 1);
}

/// Which corner around a cell is the first that is looked up and not there: the one with
/// the least index.
pub proof fn law_missing_neighbour_is_named(
    board: &ExternalCalibrator,
    cell: (i32, i32),
    corner_count: usize,
    r: Result<Vec<GridPoint>, ExternalError>,
    row: i32,
    col: i32,
)
    requires
        call_ensures(ExternalCalibrator::get_local_correspondence, (board, cell, corner_count), r),
        r is Err,
        i32::MIN < cell.0 <= i32::MAX - 2,
        i32::MIN < cell.1 <= i32::MAX - 2,
        0 < board.pattern_size.width,
        0 < board.pattern_size.height,
        board.pattern_size.height * board.pattern_size.width <= i32::MAX,
        0 <= row < board.pattern_size.height,
        0 <= col < board.pattern_size.width,
        cell.0 - 1 <= row <= cell.0 + 2,
        cell.1 - 1 <= col <= cell.1 + 2,
        row * board.pattern_size.width + col >= corner_count,
    ensures
        r->Err_0 is MissingCorner,
        corner_count <= r->Err_0->index <= row * board.pattern_size.width + col,
        ({
            let w = board.pattern_size.width as int;
            &&& cell.0 - 1 <= r->Err_0->index as int / w <= cell.0 + 2
            &&& cell.1 - 1 <= r->Err_0->index as int % w <= cell.1 + 2
        }),
{
    let size = board.pattern_size;
    let (w, h) = (size.width as int, size.height as int);
    let places = places_around(size, cell);
    let corners = corners_around(size, cell);
    let (rows, cols) = (neighbourhood(cell.0 as int, h), neighbourhood(cell.1 as int, w));
    let index = r->Err_0->index;
    assert(first_missing(corners, corner_count, index));
    let i = choose|i: int|
        0 <= i < corners.len() && #[trigger] corners[i] == index && index >= corner_count && forall|
            j: int,
        |
            0 <= j < i ==> #[trigger] corners[j] < corner_count;
    law_grid_covers(rows, cols, row, col);
    let k = choose|k: int| 0 <= k < places.len() && places[k] == (row, col);
    lemma_corner_at(size, cell, i);
    lemma_corner_at(size, cell, k);
    assert(i <= k) by {
        if k < i {
            assert(corners[k] < corner_count);
        }
    }
    if i < k {
        lemma_corners_ascend(size, cell, i, k);
    }
    let (a, b) = places[i];
    law_grid_covers(rows, cols, a, b);
    assert(places.contains((a, b)));
    lemma_fundamental_div_mod_converse(index as int, w, a as int, b as int);
}

/// The corner at a place around a cell.
proof fn lemma_corner_at(size: Size, cell: (i32, i32), k: int)
    requires
        i32::MIN < cell.0 <= i32::MAX - 2,
        i32::MIN < cell.1 <= i32::MAX - 2,
        0 < size.width,
        0 < size.height,
        size.height * size.width <= i32::MAX,
        0 <= k < places_around(size, cell).len(),
    ensures
        corners_around(size, cell).len() == places_around(size, cell).len(),
        corners_around(size, cell)[k] == places_around(size, cell)[k].0 * size.width
            + places_around(size, cell)[k].1,
{
    let (w, h) = (size.width as int, size.height as int);
    let places = places_around(size, cell);
    let (rows, cols) = (neighbourhood(cell.0 as int, h), neighbourhood(cell.1 as int, w));
    lemma_grid_index(rows, cols, k);
    lemma_corner_index(w, h, places[k].0 as int, places[k].1 as int);
    assert(points_around(size, cell)[k] == grid_point(w, places[k].0 as int, places[k].1 as int));
}

/// The corners around a cell stand in ascending order.
proof fn lemma_corners_ascend(size: Size, cell: (i32, i32), i: int, k: int)
    requires
        i32::MIN < cell.0 <= i32::MAX - 2,
        i32::MIN < cell.1 <= i32::MAX - 2,
        0 < size.width,
        0 < size.height,
        size.height * size.width <= i32::MAX,
        0 <= i < k < places_around(size, cell).len(),
    ensures
        corners_around(size, cell)[i] < corners_around(size, cell)[k],
    decreases k,
{
    let (w, h) = (size.width as int, size.height as int);
    let places = places_around(size, cell);
    let (rows, cols) = (neighbourhood(cell.0 as int, h), neighbourhood(cell.1 as int, w));
    let (a, b) = (places[k - 1], places[k]);
    crate::grid::law_grid_runs_row_by_row(rows, cols, k - 1);
    lemma_grid_index(rows, cols, k - 1);
    lemma_grid_index(rows, cols, k);
    lemma_corner_at(size, cell, k - 1);
    lemma_corner_at(size, cell, k);
    if a.0 < b.0 {
        assert((a.0 + 1) * w <= b.0 * w && (a.0 + 1) * w == a.0 * w + w) by (nonlinear_arith)
            requires
                a.0 + 1 <= b.0,
                0 < w,
        ;
    }
    if i < k - 1 {
        lemma_corners_ascend(size, cell, i, k - 1);
    }
}

} // verus!
