//! Evaluating projector calibration quality: which board points are reprojected,
//! what is reported and where, and the layout of the plots.
//!
//! Results are written out as per-view scatter plots (SVG + PNG) and a JSON dump
//! per projector.

use vstd::arithmetic::div_mod::lemma_fundamental_div_mod_converse;
use vstd::prelude::*;
use vstd::string::*;

use crate::external_calibrator::corner_index;
use crate::float_bits::{largest_single, smallest_single, F32, F64};
use crate::grid::{grid, grid_of, lemma_grid_index};
use crate::text::{decimal, push_decimal};
use crate::types::{Point2f, Size, Span};

verus! {

/// A matrix, row by row.
pub type Matrix = Vec<Vec<F64>>;

/// One projector's calibration outputs to be evaluated.
///
/// `rvecs`/`tvecs` and `measured_points` are parallel per-view lists (one entry
/// per captured board pose). `A` is the caller's metadata, which is not looked at.
#[derive(Clone, Debug)]
pub struct EvaluationData<A> {
    pub projector_id: usize,
    pub camera_matrix: Matrix,
    pub dist_coeffs: Matrix,
    /// Per-view rotation vectors (Rodrigues).
    pub rvecs: Vec<Matrix>,
    /// Per-view translation vectors.
    pub tvecs: Vec<Matrix>,
    /// Per-view measured pattern points in image pixels.
    pub measured_points: Vec<Vec<Point2f>>,
    /// Caller-supplied metadata, copied verbatim into the output.
    pub additional_data_to_save: A,
}

/// What is dumped of one projector's evaluation.
#[derive(Debug)]
pub struct EvaluationRecord<A> {
    pub camera_matrix: Matrix,
    pub dist_coeff: Matrix,
    pub rvecs: Vec<Matrix>,
    pub tvecs: Vec<Matrix>,
    pub measured_points: Vec<Vec<Point2f>>,
    /// Mean reprojection error in pixels.
    pub mean_error: F64,
    /// RMS reprojection error in pixels.
    pub rms_error: F64,
    pub additional_data: A,
}

// ---- board points ----

/// The rows or columns of a side of `points` grid points.
pub open spec fn side(points: int) -> Span {
    Span {
        start: 0,
        end: (if points > 0 {
            points - 1
        } else {
            -1
        }) as i32,
    }
}

/// The grid points of a board, row by row, as pairs of row and column.
pub open spec fn board_points(pattern_size: Size) -> Seq<(i32, i32)> {
    grid_of(side(pattern_size.height as int), side(pattern_size.width as int))
}

/// The planar checkerboard object points, as pairs of row and column, ordered
/// row-major over the `pattern_size` grid. Column and row times the spacing
/// between corners are the point's x and y on the board; its z is 0.
pub fn generate_object_points(pattern_size: Size) -> (points: Vec<(i32, i32)>)
    ensures
        points@ == board_points(pattern_size),
{
    let rows = Span {
        start: 0,
        end: if pattern_size.height > 0 {
            pattern_size.height - 1
        } else {
            -1
        },
    };
    let cols = Span {
        start: 0,
        end: if pattern_size.width > 0 {
            pattern_size.width - 1
        } else {
            -1
        },
    };
    grid(rows, cols)
}

/// A board has one object point per corner, and the object point of a corner
/// has the corner's index.
pub proof fn law_object_points_match_corners(pattern_size: Size, k: int)
    requires
        pattern_size.width > 0,
        pattern_size.height > 0,
        0 <= k < board_points(pattern_size).len(),
    ensures
        board_points(pattern_size).len() == pattern_size.height * pattern_size.width,
        corner_index(
            pattern_size.width as int,
            board_points(pattern_size)[k].0 as int,
            board_points(pattern_size)[k].1 as int,
        ) == k,
{
    let (rows, cols) = (side(pattern_size.height as int), side(pattern_size.width as int));
    lemma_grid_index(rows, cols, k);
}

// ---- reports ----

/// `{output_path}/projector{projector_id}-{image_id}`, the path of a plot without
/// its extension.
pub open spec fn plot_stem(output_path: Seq<char>, projector_id: nat, image_id: nat) -> Seq<char> {
    output_path + "/projector"@ + decimal(projector_id) + "-"@ + decimal(image_id)
}

/// The path of a plot.
fn plot_path(output_path: &str, projector_id: usize, image_id: usize, extension: &str) -> (path: String)
    ensures
        path@ == plot_stem(output_path@, projector_id as nat, image_id as nat) + extension@,
{
    let mut path = String::new();
    path.append(output_path);
    path.append("/projector");
    push_decimal(&mut path, projector_id as u64);
    path.append("-");
    push_decimal(&mut path, image_id as u64);
    path.append(extension);
    assert(path@ =~= plot_stem(output_path@, projector_id as nat, image_id as nat) + extension@);
    path
}

/// What is plotted of one view, and where to.
#[derive(Debug)]
pub struct ViewReport {
    /// Title of the plot.
    pub caption: String,
    pub svg_path: String,
    pub png_path: String,
}

/// The title of a plot.
pub open spec fn caption_text(projector_id: nat, image_id: nat) -> Seq<char> {
    "Projected vs Measured (Projector "@ + decimal(projector_id) + " / State "@ + decimal(image_id)
        + ")"@
}

/// The title of a plot.
fn caption(projector_id: usize, image_id: usize) -> (text: String)
    ensures
        text@ == caption_text(projector_id as nat, image_id as nat),
{
    let mut text = String::new();
    text.append("Projected vs Measured (Projector ");
    push_decimal(&mut text, projector_id as u64);
    text.append(" / State ");
    push_decimal(&mut text, image_id as u64);
    text.append(")");
    assert(text@ =~= caption_text(projector_id as nat, image_id as nat));
    text
}

/// `report` is that of a view.
pub open spec fn reports_view(
    report: ViewReport,
    output_path: Seq<char>,
    projector_id: nat,
    image_id: nat,
) -> bool {
    &&& report.caption@ == caption_text(projector_id, image_id)
    &&& report.svg_path@ == plot_stem(output_path, projector_id, image_id) + ".svg"@
    &&& report.png_path@ == plot_stem(output_path, projector_id, image_id) + ".png"@
}

/// What is reported of one projector, and where to.
#[derive(Debug)]
pub struct ProjectorReport {
    /// The line printed before the views.
    pub heading: String,
    /// One report per view.
    pub views: Vec<ViewReport>,
    /// Where the dump goes.
    pub json_path: String,
}

/// The smaller of two numbers.
pub open spec fn lesser(a: nat, b: nat) -> nat {
    if a <= b {
        a
    } else {
        b
    }
}

impl<A> EvaluationData<A> {
    /// Number of views: those that have a rotation, a translation and measured
    /// points.
    pub open spec fn views(self) -> nat {
        lesser(lesser(self.rvecs@.len(), self.tvecs@.len()), self.measured_points@.len())
    }

    /// Number of views: those that have a rotation, a translation and measured
    /// points.
    pub fn view_count(&self) -> (n: usize)
        ensures
            n == self.views(),
    {
        let mut n: usize = self.rvecs.len();
        if self.tvecs.len() < n {
            n = self.tvecs.len();
        }
        if self.measured_points.len() < n {
            n = self.measured_points.len();
        }
        n
    }
}

/// Lay out the report on a projector, the `param_id`-th that is evaluated, under
/// the directory `path`: a plot per view and one `data{n}.json`.
pub fn save_camera_params_evaluation<A>(param_id: usize, item: &EvaluationData<A>, path: &str) -> (report:
    ProjectorReport)
    ensures
        report.heading@ == "# Projector "@ + decimal(item.projector_id as nat),
        report.views@.len() == item.views(),
        forall|i: int|
            0 <= i < report.views@.len() ==> reports_view(
                #[trigger] report.views@[i],
                path@,
                item.projector_id as nat,
                i as nat,
            ),
        report.json_path@ == path@ + "/data"@ + decimal(param_id as nat) + ".json"@,
{
    let mut heading = String::new();
    heading.append("# Projector ");
    push_decimal(&mut heading, item.projector_id as u64);
    assert(heading@ =~= "# Projector "@ + decimal(item.projector_id as nat));
    let n: usize = item.view_count();
    let mut views: Vec<ViewReport> = Vec::new();
    let mut i: usize = 0;
    while i < n
        invariant
            i <= n,
            views@.len() == i,
            forall|j: int|
                0 <= j < i ==> reports_view(
                    #[trigger] views@[j],
                    path@,
                    item.projector_id as nat,
                    j as nat,
                ),
        decreases n - i,
    {
        let report = ViewReport {
            caption: caption(item.projector_id, i),
            svg_path: plot_path(path, item.projector_id, i, ".svg"),
            png_path: plot_path(path, item.projector_id, i, ".png"),
        };
        views.push(report);
        i += 1;
    }
    let mut json_path = String::new();
    json_path.append(path);
    json_path.append("/data");
    push_decimal(&mut json_path, param_id as u64);
    json_path.append(".json");
    assert(json_path@ =~= path@ + "/data"@ + decimal(param_id as nat) + ".json"@);
    ProjectorReport { heading, views, json_path }
}

/// The points of all views, one view after the other.
pub open spec fn all_points(views: Seq<Vec<Point2f>>) -> Seq<Point2f>
    decreases views.len(),
{
    if views.len() == 0 {
        seq![]
    } else {
        all_points(views.drop_last()) + views.last()@
    }
}

/// Put the points of all views of a projector together, for its aggregate
/// residuals.
pub fn aggregate_points(views: &Vec<Vec<Point2f>>) -> (points: Vec<Point2f>)
    ensures
        points@ == all_points(views@),
{
    let mut points: Vec<Point2f> = Vec::new();
    let mut i: usize = 0;
    assert(views@.take(0) =~= seq![]);
    while i < views.len()
        invariant
            i <= views.len(),
            points@ == all_points(views@.take(i as int)),
        decreases views.len() - i,
    {
        let view = &views[i];
        let ghost before = points@;
        assert(views@.take(i + 1).drop_last() =~= views@.take(i as int));
        let mut j: usize = 0;
        while j < view.len()
            invariant
                j <= view.len(),
                points@ =~= before + view@.take(j as int),
            decreases view.len() - j,
        {
            points.push(view[j]);
            j += 1;
        }
        assert(view@.take(j as int) =~= view@);
        i += 1;
    }
    assert(views@.take(i as int) =~= views@);
    points
}

/// Measured and projected points that agree in number view by view agree in
/// number altogether, so that residuals pair each with its own.
pub proof fn law_aggregates_aligned(measured: Seq<Vec<Point2f>>, projected: Seq<Vec<Point2f>>)
    requires
        measured.len() == projected.len(),
        forall|i: int|
            0 <= i < measured.len() ==> (#[trigger] measured[i])@.len() == projected[i]@.len(),
    ensures
        all_points(measured).len() == all_points(projected).len(),
    decreases measured.len(),
{
    if measured.len() > 0 {
        let last = measured.len() - 1;
        assert(measured[last]@.len() == projected[last]@.len());
        assert forall|i: int| 0 <= i < last implies (#[trigger] measured.drop_last()[i])@.len()
            == projected.drop_last()[i]@.len() by {
            assert(measured[i]@.len() == projected[i]@.len());
        }
        law_aggregates_aligned(measured.drop_last(), projected.drop_last());
    }
}

/// The dump of a projector's evaluation: its parameters, the measured points of
/// the views that were evaluated, and the aggregate errors.
pub fn evaluation_record<A>(item: EvaluationData<A>, mean_error: F64, rms_error: F64) -> (r:
    EvaluationRecord<A>)
    ensures
        r.camera_matrix == item.camera_matrix,
        r.dist_coeff == item.dist_coeffs,
        r.rvecs == item.rvecs,
        r.tvecs == item.tvecs,
        r.measured_points@ == item.measured_points@.take(item.views() as int),
        r.mean_error == mean_error,
        r.rms_error == rms_error,
        r.additional_data == item.additional_data_to_save,
{
    let n: usize = item.view_count();
    let mut measured_points = item.measured_points;
    measured_points.truncate(n);
    EvaluationRecord {
        camera_matrix: item.camera_matrix,
        dist_coeff: item.dist_coeffs,
        rvecs: item.rvecs,
        tvecs: item.tvecs,
        measured_points,
        mean_error,
        rms_error,
        additional_data: item.additional_data_to_save,
    }
}

/// No two plots of one evaluation share a path: views of a projector have
/// different file names.
pub proof fn law_plots_kept_apart(output_path: Seq<char>, projector_id: nat, i: nat, j: nat)
    requires
        plot_stem(output_path, projector_id, i) == plot_stem(output_path, projector_id, j),
    ensures
        i == j,
{
    let head = output_path + "/projector"@ + decimal(projector_id) + "-"@;
    let n = head.len() as int;
    assert(plot_stem(output_path, projector_id, i).skip(n) =~= decimal(i));
    assert(plot_stem(output_path, projector_id, j).skip(n) =~= decimal(j));
    crate::text::lemma_decimal_distinct(i, j);
}

// ---- the plot ----

/// Size of the plot: the chart, with the color bar to its right.
pub const PLOT_WIDTH: u32 = 740;

pub const PLOT_HEIGHT: u32 = 480;

/// Width of the chart.
pub const CHART_WIDTH: u32 = 640;

/// Number of steps of the color bar.
pub const COLORBAR_STEPS: u32 = 100;

/// The bounds of plotted points.
#[derive(Clone, Copy, Debug, PartialEq, Eq, Structural)]
pub struct Bounds {
    pub min_x: F32,
    pub max_x: F32,
    pub min_y: F32,
    pub max_y: F32,
}

/// `r` is the least of `start` and the numbers among `values`.
pub open spec fn least(start: F32, values: Seq<F32>, r: F32) -> bool {
    &&& !r.nan()
    &&& r == start || values.contains(r)
    &&& r.value() <= start.value()
    &&& forall|i: int|
        0 <= i < values.len() && !(#[trigger] values[i]).nan() ==> r.value() <= values[i].value()
}

/// `r` is the greatest of `start` and the numbers among `values`.
pub open spec fn greatest(start: F32, values: Seq<F32>, r: F32) -> bool {
    &&& !r.nan()
    &&& r == start || values.contains(r)
    &&& r.value() >= start.value()
    &&& forall|i: int|
        0 <= i < values.len() && !(#[trigger] values[i]).nan() ==> r.value() >= values[i].value()
}

/// The x coordinates of points.
pub open spec fn xs(points: Seq<Point2f>) -> Seq<F32> {
    points.map_values(|p: Point2f| p.x)
}

/// The y coordinates of points.
pub open spec fn ys(points: Seq<Point2f>) -> Seq<F32> {
    points.map_values(|p: Point2f| p.y)
}

/// `b` bounds the points. Coordinates that are not numbers do not count.
pub open spec fn bounds_of(points: Seq<Point2f>, b: Bounds) -> bool {
    &&& least(largest_single(), xs(points), b.min_x)
    &&& greatest(smallest_single(), xs(points), b.max_x)
    &&& least(largest_single(), ys(points), b.min_y)
    &&& greatest(smallest_single(), ys(points), b.max_y)
}

/// One more point within the bounds.
fn widen(b: Bounds, p: Point2f, Ghost(points): Ghost<Seq<Point2f>>) -> (r: Bounds)
    requires
        bounds_of(points, b),
    ensures
        bounds_of(points.push(p), r),
{
    let r = Bounds {
        min_x: if p.x.less(b.min_x) {
            p.x
        } else {
            b.min_x
        },
        max_x: if b.max_x.less(p.x) {
            p.x
        } else {
            b.max_x
        },
        min_y: if p.y.less(b.min_y) {
            p.y
        } else {
            b.min_y
        },
        max_y: if b.max_y.less(p.y) {
            p.y
        } else {
            b.max_y
        },
    };
    proof {
        assert(xs(points.push(p)) =~= xs(points).push(p.x));
        assert(ys(points.push(p)) =~= ys(points).push(p.y));
        lemma_one_more(xs(points), p.x);
        lemma_one_more(ys(points), p.y);
    }
    r
}

/// Members of a sequence with one more element.
proof fn lemma_one_more(values: Seq<F32>, v: F32)
    ensures
        values.push(v).contains(v),
        forall|w: F32| values.contains(w) ==> values.push(v).contains(w),
{
    assert(values.push(v)[values.len() as int] == v);
    assert forall|w: F32| values.contains(w) implies values.push(v).contains(w) by {
        let i = choose|i: int| 0 <= i < values.len() && values[i] == w;
        assert(values.push(v)[i] == w);
    }
}

/// The points that a plot shows in pairs: projected and measured alternate.
pub open spec fn plotted(projected: Seq<Point2f>, measured: Seq<Point2f>) -> Seq<Point2f>
    decreases projected.len(),
{
    if projected.len() == 0 {
        seq![]
    } else {
        let n = projected.len() - 1;
        plotted(projected.drop_last(), measured).push(projected[n]).push(measured[n])
    }
}

/// The bounds of the points of a plot.
pub fn data_bounds(projected: &Vec<Point2f>, measured: &Vec<Point2f>) -> (b: Bounds)
    requires
        projected@.len() <= measured@.len(),
    ensures
        bounds_of(plotted(projected@, measured@), b),
{
    let mut b = Bounds {
        min_x: F32 { bits: 0x7f7f_ffff },
        max_x: F32 { bits: 0xff7f_ffff },
        min_y: F32 { bits: 0x7f7f_ffff },
        max_y: F32 { bits: 0xff7f_ffff },
    };
    let mut i: usize = 0;
    assert(projected@.take(0) =~= seq![]);
    while i < projected.len()
        invariant
            projected@.len() <= measured@.len(),
            i <= projected.len(),
            bounds_of(plotted(projected@.take(i as int), measured@), b),
        decreases projected.len() - i,
    {
        let ghost shown = plotted(projected@.take(i as int), measured@);
        assert(projected@.take(i + 1).drop_last() =~= projected@.take(i as int));
        b = widen(b, projected[i], Ghost(shown));
        b = widen(b, measured[i], Ghost(shown.push(projected@[i as int])));
        i += 1;
    }
    assert(projected@.take(i as int) =~= projected@);
    b
}

/// A step of the color bar, in halves of a step: it reaches down half a step
/// into the one below, so that no gap shows.
pub open spec fn colorbar_step(i: int) -> (u32, u32) {
    (
        (if i == 0 {
            0
        } else {
            2 * i - 1
        }) as u32,
        (2 * (i + 1)) as u32,
    )
}

/// The steps of the color bar: for each its lower and its upper end, in halves of
/// a step.
pub fn colorbar() -> (steps: Vec<(u32, u32)>)
    ensures
        steps@ == Seq::new(COLORBAR_STEPS as nat, |i: int| colorbar_step(i)),
{
    let mut steps: Vec<(u32, u32)> = Vec::new();
    let mut i: u32 = 0;
    while i < COLORBAR_STEPS
        invariant
            i <= COLORBAR_STEPS,
            steps@ =~= Seq::new(i as nat, |j: int| colorbar_step(j)),
        decreases COLORBAR_STEPS - i,
    {
        let lower: u32 = if i == 0 {
            0
        } else {
            2 * i - 1
        };
        steps.push((lower, 2 * (i + 1)));
        i += 1;
    }
    steps
}

/// The color bar has no gap: it begins at 0, each step begins below the end of
/// the one before, and it ends at its full height.
pub proof fn law_colorbar_has_no_gap(i: int)
    requires
        0 <= i < COLORBAR_STEPS,
    ensures
        colorbar_step(0).0 == 0,
        i > 0 ==> colorbar_step(i).0 < colorbar_step(i - 1).1 < colorbar_step(i).1,
        colorbar_step(COLORBAR_STEPS - 1).1 == 2 * COLORBAR_STEPS,
{
}

/// The points of a board are listed row by row: the one in a row and a column stands
/// behind those of all rows before and of the columns before in its row.
pub proof fn law_object_points(pattern_size: Size, points: Vec<(i32, i32)>, row: int, col: int)
    requires
        call_ensures(generate_object_points, (pattern_size,), points),
        0 <= row < pattern_size.height,
        0 <= col < pattern_size.width,
    ensures
        points@.len() == pattern_size.height * pattern_size.width,
        0 <= row * pattern_size.width + col < points@.len(),
        points@[row * pattern_size.width + col] == (row as i32, col as i32),
{
    let (w, h) = (pattern_size.width as int, pattern_size.height as int);
    let k = row * w + col;
    assert(0 <= row * w && row * w + w <= h * w) by (nonlinear_arith)
        requires
            0 <= row,
            row + 1 <= h,
            0 < w,
    ;
    lemma_grid_index(side(h), side(w), k);
    lemma_fundamental_div_mod_converse(k, w, row, col);
}

/// As many views are evaluated as all three lists have.
pub proof fn law_views_are_complete<A>(item: &EvaluationData<A>, n: usize)
    requires
        call_ensures(EvaluationData::<A>::view_count, (item,), n),
    ensures
        n <= item.rvecs@.len(),
        n <= item.tvecs@.len(),
        n <= item.measured_points@.len(),
        n == item.rvecs@.len() || n == item.tvecs@.len() || n == item.measured_points@.len(),
{
}

/// What is recorded are the outputs as they came, and the points of the views that are
/// evaluated.
pub proof fn law_record_keeps_outputs<A>(
    item: EvaluationData<A>,
    mean_error: F64,
    rms_error: F64,
    r: EvaluationRecord<A>,
    n: usize,
    i: int,
)
    requires
        call_ensures(evaluation_record::<A>, (item, mean_error, rms_error), r),
        call_ensures(EvaluationData::<A>::view_count, (&item,), n),
    ensures
        r.camera_matrix == item.camera_matrix,
        r.dist_coeff == item.dist_coeffs,
        r.rvecs == item.rvecs,
        r.tvecs == item.tvecs,
        r.mean_error == mean_error,
        r.rms_error == rms_error,
        r.additional_data == item.additional_data_to_save,
        r.measured_points@.len() == n,
        0 <= i < n ==> r.measured_points@[i] == item.measured_points@[i],
{
}

/// Where everything goes: the record under the number of the parameters, and the plots
/// of each view under the numbers of the projector and of the view, one in each format.
pub proof fn law_report_names<A>(
    param_id: usize,
    item: &EvaluationData<A>,
    path: &str,
    report: ProjectorReport,
    n: usize,
    i: int,
)
    requires
        call_ensures(save_camera_params_evaluation::<A>, (param_id, item, path), report),
        call_ensures(EvaluationData::<A>::view_count, (item,), n),
        0 <= i < n,
    ensures
        report.views@.len() == n,
        report.heading@ == "# Projector "@ + decimal(item.projector_id as nat),
        report.json_path@ == path@ + "/data"@ + decimal(param_id as nat) + ".json"@,
        report.views@[i].svg_path@ == path@ + "/projector"@ + decimal(item.projector_id as nat)
            + "-"@ + decimal(i as nat) + ".svg"@,
        report.views@[i].png_path@ == path@ + "/projector"@ + decimal(item.projector_id as nat)
            + "-"@ + decimal(i as nat) + ".png"@,
        report.views@[i].caption@ == "Projected vs Measured (Projector "@ + decimal(
            item.projector_id as nat,
        ) + " / State "@ + decimal(i as nat) + ")"@,
{
    assert(reports_view(report.views@[i], path@, item.projector_id as nat, i as nat));
}

/// How many points the first `n` views have.
pub open spec fn points_before(views: Seq<Vec<Point2f>>, n: int) -> int
    decreases n,
{
    if n <= 0 {
        0
    } else {
        points_before(views, n - 1) + views[n - 1]@.len()
    }
}

/// All points of all views come out, view by view, each view's in their order.
pub proof fn law_aggregate_keeps_order(
    views: &Vec<Vec<Point2f>>,
    points: Vec<Point2f>,
    v: int,
    k: int,
)
    requires
        call_ensures(aggregate_points, (views,), points),
        0 <= v < views@.len(),
        0 <= k < views@[v]@.len(),
    ensures
        points@.len() == points_before(views@, views@.len() as int),
        0 <= points_before(views@, v) + k < points@.len(),
        points@[points_before(views@, v) + k] == views@[v]@[k],
{
    lemma_all_points(views@, v, k);
}

/// How many points there are.
proof fn lemma_all_points_len(views: Seq<Vec<Point2f>>)
    ensures
        all_points(views).len() == points_before(views, views.len() as int),
    decreases views.len(),
{
    if views.len() > 0 {
        lemma_all_points_len(views.drop_last());
        lemma_points_before(views.drop_last(), views, views.len() - 1);
    }
}

/// Only the first views count.
proof fn lemma_points_before(a: Seq<Vec<Point2f>>, b: Seq<Vec<Point2f>>, n: int)
    requires
        n <= a.len(),
        n <= b.len(),
        forall|i: int| 0 <= i < n ==> #[trigger] a[i] == b[i],
    ensures
        points_before(a, n) == points_before(b, n),
        points_before(a, n) >= 0,
    decreases n,
{
    if n > 0 {
        assert(a[n - 1] == b[n - 1]);
        lemma_points_before(a, b, n - 1);
    }
}

/// Where a point of a view comes to stand.
proof fn lemma_all_points(views: Seq<Vec<Point2f>>, v: int, k: int)
    requires
        0 <= v < views.len(),
        0 <= k < views[v]@.len(),
    ensures
        all_points(views).len() == points_before(views, views.len() as int),
        0 <= points_before(views, v) + k < all_points(views).len(),
        all_points(views)[points_before(views, v) + k] == views[v]@[k],
    decreases views.len(),
{
    let head = views.drop_last();
    lemma_all_points_len(views);
    lemma_all_points_len(head);
    lemma_points_before(head, views, v);
    lemma_points_before(head, views, head.len() as int);
    if v < views.len() - 1 {
        assert(head[v] == views[v]);
        lemma_all_points(head, v, k);
    }
}

/// The bounds hold all points that are plotted, as far as their coordinates are numbers.
pub proof fn law_bounds_hold_all(
    projected: &Vec<Point2f>,
    measured: &Vec<Point2f>,
    b: Bounds,
    i: int,
)
    requires
        call_ensures(data_bounds, (projected, measured), b),
        projected@.len() <= measured@.len(),
        0 <= i < projected@.len(),
    ensures
        !projected@[i].x.nan() ==> b.min_x.value() <= projected@[i].x.value() <= b.max_x.value(),
        !projected@[i].y.nan() ==> b.min_y.value() <= projected@[i].y.value() <= b.max_y.value(),
        !measured@[i].x.nan() ==> b.min_x.value() <= measured@[i].x.value() <= b.max_x.value(),
        !measured@[i].y.nan() ==> b.min_y.value() <= measured@[i].y.value() <= b.max_y.value(),
{
    let points = plotted(projected@, measured@);
    lemma_plotted(projected@, measured@, i);
    let (p, m) = (2 * i, 2 * i + 1);
    assert(xs(points)[p] == projected@[i].x && xs(points)[m] == measured@[i].x);
    assert(ys(points)[p] == projected@[i].y && ys(points)[m] == measured@[i].y);
}

/// The bounds are tight: each is a coordinate of a point that is plotted, if there is
/// one that has a number there within the finite ones.
pub proof fn law_bounds_are_tight(
    projected: &Vec<Point2f>,
    measured: &Vec<Point2f>,
    b: Bounds,
    lowest: F32,
    highest: F32,
)
    requires
        call_ensures(data_bounds, (projected, measured), b),
        projected@.len() <= measured@.len(),
        lowest.bits == 0xff7f_ffff,
        highest.bits == 0x7f7f_ffff,
    ensures
        b.min_x == highest || exists|i: int|
            0 <= i < projected@.len() && ((#[trigger] projected@[i]).x == b.min_x || measured@[i].x
                == b.min_x),
        b.max_x == lowest || exists|i: int|
            0 <= i < projected@.len() && ((#[trigger] projected@[i]).x == b.max_x || measured@[i].x
                == b.max_x),
        b.min_y == highest || exists|i: int|
            0 <= i < projected@.len() && ((#[trigger] projected@[i]).y == b.min_y || measured@[i].y
                == b.min_y),
        b.max_y == lowest || exists|i: int|
            0 <= i < projected@.len() && ((#[trigger] projected@[i]).y == b.max_y || measured@[i].y
                == b.max_y),
{
    let points = plotted(projected@, measured@);
    assert(lowest == smallest_single() && highest == largest_single());
    if b.min_x != highest {
        let k = choose|k: int| 0 <= k < xs(points).len() && xs(points)[k] == b.min_x;
        lemma_plotted_at(projected@, measured@, k);
    }
    if b.max_x != lowest {
        let k = choose|k: int| 0 <= k < xs(points).len() && xs(points)[k] == b.max_x;
        lemma_plotted_at(projected@, measured@, k);
    }
    if b.min_y != highest {
        let k = choose|k: int| 0 <= k < ys(points).len() && ys(points)[k] == b.min_y;
        lemma_plotted_at(projected@, measured@, k);
    }
    if b.max_y != lowest {
        let k = choose|k: int| 0 <= k < ys(points).len() && ys(points)[k] == b.max_y;
        lemma_plotted_at(projected@, measured@, k);
    }
}

/// Where the points of a pair are plotted.
proof fn lemma_plotted(projected: Seq<Point2f>, measured: Seq<Point2f>, i: int)
    requires
        projected.len() <= measured.len(),
        0 <= i < projected.len(),
    ensures
        plotted(projected, measured).len() == 2 * projected.len(),
        plotted(projected, measured)[2 * i] == projected[i],
        plotted(projected, measured)[2 * i + 1] == measured[i],
    decreases projected.len(),
{
    let head = projected.drop_last();
    lemma_plotted_len(head, measured);
    if i < projected.len() - 1 {
        lemma_plotted(head, measured, i);
    }
}

/// How many points are plotted.
proof fn lemma_plotted_len(projected: Seq<Point2f>, measured: Seq<Point2f>)
    ensures
        plotted(projected, measured).len() == 2 * projected.len(),
    decreases projected.len(),
{
    if projected.len() > 0 {
        lemma_plotted_len(projected.drop_last(), measured);
    }
}

/// Which point is plotted at a place.
proof fn lemma_plotted_at(projected: Seq<Point2f>, measured: Seq<Point2f>, k: int)
    requires
        projected.len() <= measured.len(),
        0 <= k < plotted(projected, measured).len(),
    ensures
        0 <= k / 2 < projected.len(),
        plotted(projected, measured)[k] == projected[k / 2] || plotted(projected, measured)[k]
            == measured[k / 2],
{
    lemma_plotted_len(projected, measured);
    lemma_plotted(projected, measured, k / 2);
    assert(k == 2 * (k / 2) || k == 2 * (k / 2) + 1);
}

/// The steps of the color bar: 100 of them, each two pixels high, and each but the first
/// begins one pixel into the one before.
pub proof fn law_colorbar(steps: Vec<(u32, u32)>, i: int)
    requires
        call_ensures(colorbar, (), steps),
        0 <= i < 100,
    ensures
        steps@.len() == 100,
        steps@[0].0 == 0,
        steps@[i].1 == 2 * i + 2,
        i > 0 ==> steps@[i].0 + 1 == steps@[i - 1].1,
{
}

} // verus!
