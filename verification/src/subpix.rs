//! The subpixel pass: sweeping single scan lines over the neighbourhood of each
//! coarse correspondence.

use std::collections::{BTreeMap, HashMap, VecDeque};

use vstd::prelude::*;

use crate::calibrator::{CalibrationError, Calibrator};
use crate::camera::SubpixEntry;
use crate::coordinate_spans::{
    build_coordinate_spans, clusters_of, law_every_tag_has_a_span, law_span_of_is_a_span,
    law_span_surrounds_value, law_spans_well_formed, law_sweep_covers, longest, scan_line, span_len, takes_from,
    CoordinateSpans,
};
use crate::listing::ordered_entries;
use crate::patterns::Axis;
use crate::schedule::{
    all_answered, camera_start, camera_start_delay, even_schedule, gather_round_trips,
    generate_timestamps_subpix, largest, RoundTrips,
};
use crate::types::{
    CameraId, CameraResult, Point2d, Point2f, Point2i, ProjectorId, Span,
};

verus! {

/// How far a scan range reaches beyond the values it was built from, and how
/// close two values are that share a range, in projector pixels.
pub const SPAN_PADDING: i32 = 5;

/// The X and the Y scan ranges of one projector.
pub type AxisSpans = (CoordinateSpans, CoordinateSpans);

// ---- scan ranges ----

/// The coordinate of a camera's projector pixel along an axis.
pub open spec fn coordinate(r: CameraResult, axis: Axis) -> i32 {
    match axis {
        Axis::X => r.camera_position_in_projector.x,
        Axis::Y => r.camera_position_in_projector.y,
    }
}

/// `pairs` gives the coordinate of every camera, in ascending order of cameras.
pub open spec fn observed(
    cameras: Map<CameraId, CameraResult>,
    axis: Axis,
    pairs: Seq<(i32, usize)>,
) -> bool {
    &&& forall|i: int|
        0 <= i < pairs.len() ==> cameras.contains_key((#[trigger] pairs[i]).1) && pairs[i].0
            == coordinate(cameras[pairs[i].1], axis)
    &&& forall|i: int, j: int|
        0 <= i < j < pairs.len() ==> (#[trigger] pairs[i]).1 < (#[trigger] pairs[j]).1
    &&& forall|c: CameraId| #[trigger]
        cameras.contains_key(c) ==> exists|i: int| 0 <= i < pairs.len() && (#[trigger] pairs[i]).1 == c
}

/// `spans` are the scan ranges of the cameras along an axis.
pub open spec fn spans_along(
    cameras: Map<CameraId, CameraResult>,
    axis: Axis,
    spans: CoordinateSpans,
) -> bool {
    exists|pairs: Seq<(i32, usize)>|
        observed(cameras, axis, pairs) && #[trigger] clusters_of(SPAN_PADDING as int, pairs, spans)
}

/// The padded coordinates of all cameras are coordinates themselves.
pub open spec fn padding_fits(cameras: Map<CameraId, CameraResult>) -> bool {
    forall|c: CameraId, axis: Axis|
        cameras.contains_key(c) ==> i32::MIN <= #[trigger] coordinate(cameras[c], axis) - SPAN_PADDING
            && coordinate(cameras[c], axis) + SPAN_PADDING <= i32::MAX
}

/// The coordinate of every camera along an axis.
fn coordinate_pairs(cameras: &BTreeMap<CameraId, CameraResult>, axis: Axis) -> (pairs: Vec<(i32, usize)>)
    ensures
        observed(cameras@, axis, pairs@),
{
    let entries = ordered_entries(cameras);
    let mut pairs: Vec<(i32, usize)> = Vec::new();
    let mut i: usize = 0;
    while i < entries.len()
        invariant
            i <= entries.len(),
            pairs@.len() == i,
            forall|j: int|
                0 <= j < i ==> #[trigger] pairs@[j] == (
                    coordinate(entries@[j].1, axis),
                    entries@[j].0,
                ),
        decreases entries.len() - i,
    {
        let (id, found) = entries[i];
        let value: i32 = match axis {
            Axis::X => found.camera_position_in_projector.x,
            Axis::Y => found.camera_position_in_projector.y,
        };
        pairs.push((value, id));
        i += 1;
    }
    proof {
        assert forall|a: int, b: int| 0 <= a < b < pairs@.len() implies (#[trigger] pairs@[a]).1 < (
        #[trigger] pairs@[b]).1 by {
            assert(entries@[a].0 < entries@[b].0);
        }
        assert forall|a: int| 0 <= a < pairs@.len() implies cameras@.contains_key(
            (#[trigger] pairs@[a]).1,
        ) && pairs@[a].0 == coordinate(cameras@[pairs@[a].1], axis) by {
            assert(cameras@.contains_key(entries@[a].0));
        }
        assert forall|c: CameraId| #[trigger] cameras@.contains_key(c) implies exists|a: int|
            0 <= a < pairs@.len() && (#[trigger] pairs@[a]).1 == c by {
            let a = choose|a: int| 0 <= a < entries@.len() && (#[trigger] entries@[a]).0 == c;
            assert(pairs@[a].1 == c);
        }
    }
    pairs
}

/// The scan ranges of the cameras along an axis.
fn spans_of(cameras: &BTreeMap<CameraId, CameraResult>, axis: Axis) -> (r: CoordinateSpans)
    requires
        padding_fits(cameras@),
    ensures
        spans_along(cameras@, axis, r),
{
    let pairs = coordinate_pairs(cameras, axis);
    proof {
        assert forall|i: int| 0 <= i < pairs@.len() implies i32::MIN <= (#[trigger] pairs@[i]).0
            - SPAN_PADDING && pairs@[i].0 + SPAN_PADDING <= i32::MAX by {
            assert(cameras@.contains_key(pairs@[i].1));
            assert(pairs@[i].0 == coordinate(cameras@[pairs@[i].1], axis));
        }
    }
    let ghost all = pairs@;
    let r = build_coordinate_spans(SPAN_PADDING, pairs);
    assert(clusters_of(SPAN_PADDING as int, all, r));
    r
}

// ---- the sweep ----

/// All ranges of all projectors are well formed.
pub open spec fn all_wf(spans: Seq<AxisSpans>) -> bool {
    forall|p: int| 0 <= p < spans.len() ==> (#[trigger] spans[p]).0.wf() && spans[p].1.wf()
}

/// For every projector, every tag group along X has a range.
pub open spec fn all_grouped(spans: Seq<AxisSpans>) -> bool {
    forall|p: int|
        0 <= p < spans.len() ==> (#[trigger] spans[p]).0.tag_groups@.len() <= spans[p].0.spans@.len()
}

/// Number of scan lines of one projector.
pub open spec fn lines_of(spans: AxisSpans) -> int {
    longest(spans.0.spans@) + longest(spans.1.spans@)
}

/// Number of scan lines of the projector that has most.
pub open spec fn most_lines(spans: Seq<AxisSpans>) -> int
    decreases spans.len(),
{
    if spans.len() == 0 {
        0
    } else {
        let before = most_lines(spans.drop_last());
        if lines_of(spans.last()) > before {
            lines_of(spans.last())
        } else {
            before
        }
    }
}

/// The number of frames of the sweep: the scan lines of the projector that has
/// most.
pub fn additional_pattern_count(spans_by_projector: &Vec<AxisSpans>) -> (n: usize)
    requires
        all_wf(spans_by_projector@),
    ensures
        n == most_lines(spans_by_projector@),
        n <= 2 * i32::MAX,
{
    let mut n: usize = 0;
    let mut p: usize = 0;
    assert(spans_by_projector@.take(0) =~= seq![]);
    while p < spans_by_projector.len()
        invariant
            all_wf(spans_by_projector@),
            p <= spans_by_projector.len(),
            n == most_lines(spans_by_projector@.take(p as int)),
            n <= 2 * i32::MAX,
        decreases spans_by_projector.len() - p,
    {
        assert(spans_by_projector@[p as int].0.wf());
        assert(spans_by_projector@.take(p + 1).drop_last() =~= spans_by_projector@.take(p as int));
        let x_len: usize = spans_by_projector[p].0.max_len();
        let y_len: usize = spans_by_projector[p].1.max_len();
        let lines: usize = x_len + y_len;
        if lines > n {
            n = lines;
        }
        p += 1;
    }
    assert(spans_by_projector@.take(p as int) =~= spans_by_projector@);
    n
}

/// What a camera that takes no part for a projector is told.
pub open spec fn idle_entry() -> SubpixEntry {
    SubpixEntry {
        x_span: Span { start: 0, end: 0 },
        y_span: Span { start: 0, end: 0 },
        y_starts_on: 0,
    }
}

/// What a camera is told for one projector: its ranges, and when the Y sweep
/// begins.
pub open spec fn entry_for(spans: AxisSpans, camera: CameraId) -> SubpixEntry {
    match spans.0.span_of(camera) {
        Some(x_span) => SubpixEntry {
            x_span,
            y_span: spans.1.span_of(camera)->Some_0,
            y_starts_on: longest(spans.0.spans@) as usize,
        },
        None => idle_entry(),
    }
}

/// What a camera is told: one entry per projector.
pub fn subpix_entries(spans_by_projector: &Vec<AxisSpans>, camera: CameraId) -> (entries: Vec<SubpixEntry>)
    requires
        all_wf(spans_by_projector@),
        forall|p: int|
            0 <= p < spans_by_projector@.len() ==> (#[trigger] spans_by_projector@[p]).0.has_tag(camera)
                ==> spans_by_projector@[p].1.has_tag(camera),
    ensures
        entries@.len() == spans_by_projector@.len(),
        forall|p: int|
            0 <= p < entries@.len() ==> #[trigger] entries@[p] == entry_for(
                spans_by_projector@[p],
                camera,
            ),
{
    let mut entries: Vec<SubpixEntry> = Vec::new();
    let mut p: usize = 0;
    while p < spans_by_projector.len()
        invariant
            all_wf(spans_by_projector@),
            forall|q: int|
                0 <= q < spans_by_projector@.len() ==> (
                #[trigger] spans_by_projector@[q]).0.has_tag(camera)
                    ==> spans_by_projector@[q].1.has_tag(camera),
            p <= spans_by_projector.len(),
            entries@.len() == p,
            forall|q: int|
                0 <= q < p ==> #[trigger] entries@[q] == entry_for(spans_by_projector@[q], camera),
        decreases spans_by_projector.len() - p,
    {
        assert(spans_by_projector@[p as int].0.wf());
        let spans = &spans_by_projector[p];
        match spans.0.get_span_by_tag(camera) {
            Some(x_span) => {
                let y_span = spans.1.get_span_by_tag(camera).unwrap();
                entries.push(SubpixEntry { x_span, y_span, y_starts_on: spans.0.max_len() });
            },
            None => {
                entries.push(
                    SubpixEntry {
                        x_span: Span { start: 0, end: 0 },
                        y_span: Span { start: 0, end: 0 },
                        y_starts_on: 0,
                    },
                );
            },
        }
        p += 1;
    }
    entries
}

/// A step of the sweep, to be carried out by the caller.
#[derive(Debug)]
pub enum SweepStep {
    /// Wait for that time of the host's schedule.
    WaitUntil(u32),
    /// Show full-span lines on one projector, and let its window repaint.
    Lines { projector: usize, axis: Axis, values: Vec<i32> },
}

/// A step of the sweep, with the lines as a sequence.
pub enum SweepAction {
    WaitUntil(u32),
    Lines { projector: int, axis: Axis, values: Seq<i32> },
}

impl View for SweepStep {
    type V = SweepAction;

    open spec fn view(&self) -> SweepAction {
        match self {
            SweepStep::WaitUntil(t) => SweepAction::WaitUntil(*t),
            SweepStep::Lines { projector, axis, values } => SweepAction::Lines {
                projector: *projector as int,
                axis: *axis,
                values: values@,
            },
        }
    }
}

/// The steps, each as an action.
pub open spec fn actions(steps: Seq<SweepStep>) -> Seq<SweepAction> {
    steps.map_values(|step: SweepStep| step@)
}

/// What projector `p` shows in frame `i` of the sweep: the X lines first, then
/// the Y lines, then nothing.
pub open spec fn sweep_frame(p: int, spans: AxisSpans, i: int) -> SweepAction {
    let x_len = longest(spans.0.spans@);
    if i < x_len {
        SweepAction::Lines { projector: p, axis: Axis::X, values: scan_line(spans.0.spans@, i) }
    } else if i - x_len < longest(spans.1.spans@) {
        SweepAction::Lines {
            projector: p,
            axis: Axis::Y,
            values: scan_line(spans.1.spans@, i - x_len),
        }
    } else {
        SweepAction::Lines { projector: p, axis: Axis::Y, values: seq![] }
    }
}

/// Frame `i` of the sweep on all projectors.
pub open spec fn sweep_round(spans: Seq<AxisSpans>, i: int) -> Seq<SweepAction> {
    Seq::new(spans.len(), |p: int| sweep_frame(p, spans[p], i))
}

/// Frames `i` up to `n` of the sweep, each at its time, then a last wait.
pub open spec fn sweep_actions(times: Seq<u32>, spans: Seq<AxisSpans>, i: int, n: int) -> Seq<SweepAction>
    decreases n - i,
{
    if i >= n {
        seq![SweepAction::WaitUntil(times[0])]
    } else {
        seq![SweepAction::WaitUntil(times[0])] + sweep_round(spans, i) + sweep_actions(
            times.skip(1),
            spans,
            i + 1,
            n,
        )
    }
}

/// What projector `p` shows in frame `i` of the sweep.
fn sweep_step(p: usize, spans: &AxisSpans, i: usize) -> (step: SweepStep)
    requires
        spans.0.wf(),
        spans.1.wf(),
    ensures
        step@ == sweep_frame(p as int, *spans, i as int),
{
    let x_len: usize = spans.0.max_len();
    if i < x_len {
        return SweepStep::Lines { projector: p, axis: Axis::X, values: spans.0.scan_line_at(i) };
    }
    let j: usize = i - x_len;
    if j < spans.1.max_len() {
        SweepStep::Lines { projector: p, axis: Axis::Y, values: spans.1.scan_line_at(j) }
    } else {
        let values: Vec<i32> = Vec::new();
        assert(values@ =~= seq![]);
        SweepStep::Lines { projector: p, axis: Axis::Y, values }
    }
}

/// The per-span sweep of single scan lines (X spans first, then Y) on each
/// projector, in step with the host's schedule `timestamps`, of which it takes
/// one time per frame and one for the readout of the last.
pub fn process_subpix(timestamps: &mut VecDeque<u32>, spans_by_projector: &Vec<AxisSpans>) -> (steps: Vec<
    SweepStep,
>)
    requires
        all_wf(spans_by_projector@),
        old(timestamps)@.len() >= most_lines(spans_by_projector@) + 1,
    ensures
        actions(steps@) == sweep_actions(
            old(timestamps)@,
            spans_by_projector@,
            0,
            most_lines(spans_by_projector@),
        ),
        final(timestamps)@ == old(timestamps)@.skip(most_lines(spans_by_projector@) + 1),
{
    let ghost times = timestamps@;
    let ghost spans = spans_by_projector@;
    let n: usize = additional_pattern_count(spans_by_projector);
    let mut steps: Vec<SweepStep> = Vec::new();
    let mut i: usize = 0;
    assert(times.skip(0) =~= times);
    assert(actions(steps@) + sweep_actions(times, spans, 0, n as int) =~= sweep_actions(
        times,
        spans,
        0,
        n as int,
    ));
    while i < n
        invariant
            spans == spans_by_projector@,
            all_wf(spans),
            i <= n,
            times.len() >= n + 1,
            timestamps@ == times.skip(i as int),
            actions(steps@) + sweep_actions(timestamps@, spans, i as int, n as int) == sweep_actions(
                times,
                spans,
                0,
                n as int,
            ),
        decreases n - i,
    {
        let ghost before = actions(steps@);
        let ghost rest = timestamps@;
        let t: u32 = timestamps.pop_front().unwrap();
        steps.push(SweepStep::WaitUntil(t));
        let ghost start = before.push(SweepAction::WaitUntil(rest[0]));
        assert(actions(steps@) =~= start);
        let mut p: usize = 0;
        assert(actions(steps@) =~= start + sweep_round(spans, i as int).take(0));
        while p < spans_by_projector.len()
            invariant
                spans == spans_by_projector@,
                all_wf(spans),
                p <= spans.len(),
                actions(steps@) == start + sweep_round(spans, i as int).take(p as int),
            decreases spans.len() - p,
        {
            assert(spans[p as int].0.wf());
            let ghost done = actions(steps@);
            steps.push(sweep_step(p, &spans_by_projector[p], i));
            assert(actions(steps@) =~= done.push(sweep_frame(p as int, spans[p as int], i as int)));
            assert(sweep_round(spans, i as int).take(p + 1) =~= sweep_round(spans, i as int).take(
                p as int,
            ).push(sweep_frame(p as int, spans[p as int], i as int)));
            p += 1;
        }
        proof {
            assert(sweep_round(spans, i as int).take(p as int) =~= sweep_round(spans, i as int));
            assert(timestamps@ =~= rest.skip(1));
            assert(rest.skip(1) =~= times.skip(i + 1));
            assert(actions(steps@) + sweep_actions(rest.skip(1), spans, i + 1, n as int) =~= before
                + sweep_actions(rest, spans, i as int, n as int));
        }
        i += 1;
    }
    let ghost done = actions(steps@);
    let ghost rest = timestamps@;
    let t: u32 = timestamps.pop_front().unwrap();
    steps.push(SweepStep::WaitUntil(t));
    assert(actions(steps@) =~= done + seq![SweepAction::WaitUntil(rest[0])]);
    assert(timestamps@ =~= times.skip(n + 1));
    steps
}

// ---- the pass ----

/// Whether camera `c` refined the position of projector `p`, having been told to.
pub open spec fn refined_by(
    spans: Seq<AxisSpans>,
    reports: Seq<HashMap<ProjectorId, Point2d>>,
    p: int,
    c: int,
) -> bool {
    &&& 0 <= c < reports.len()
    &&& 0 <= p < spans.len()
    &&& p <= u32::MAX
    &&& reports[c]@.contains_key(p as u32)
    &&& spans[p].0.has_tag(c as usize)
}

/// The refined positions of projector `p`, by camera.
pub open spec fn refinements(
    spans: Seq<AxisSpans>,
    reports: Seq<HashMap<ProjectorId, Point2d>>,
    p: int,
) -> Map<CameraId, Point2d> {
    Map::new(
        |c: CameraId| refined_by(spans, reports, p, c as int),
        |c: CameraId| reports[c as int]@[p as u32],
    )
}

/// Whether both coordinates of `to` are the nearest to those of `from`.
pub open spec fn point_rounds(from: Point2d, to: Point2f) -> bool {
    from.x.rounds_to(to.x) && from.y.rounds_to(to.y)
}

/// `r` holds the nearest point to each of `precise`.
pub open spec fn rounded(precise: Map<CameraId, Point2d>, r: Map<CameraId, Point2f>) -> bool {
    &&& r.dom() == precise.dom()
    &&& forall|c: CameraId| #[trigger] r.contains_key(c) ==> point_rounds(precise[c], r[c])
}

impl Calibrator {
    /// The scan ranges of every projector, from the coarse result.
    pub fn subpix_spans(&self) -> (r: Vec<AxisSpans>)
        requires
            self.result is Some,
            forall|p: int|
                0 <= p < self.result->Some_0@.len() ==> padding_fits(
                    (#[trigger] self.result->Some_0@[p]).cameras@,
                ),
        ensures
            r@.len() == self.result->Some_0@.len(),
            forall|p: int|
                0 <= p < r@.len() ==> spans_along(
                    self.result->Some_0@[p].cameras@,
                    Axis::X,
                    (#[trigger] r@[p]).0,
                ) && spans_along(self.result->Some_0@[p].cameras@, Axis::Y, r@[p].1),
    {
        let mut r: Vec<AxisSpans> = Vec::new();
        if let Some(result) = &self.result {
            let mut p: usize = 0;
            while p < result.len()
                invariant
                    forall|q: int|
                        0 <= q < result@.len() ==> padding_fits((#[trigger] result@[q]).cameras@),
                    p <= result.len(),
                    r@.len() == p,
                    forall|q: int|
                        0 <= q < p ==> spans_along(
                            result@[q].cameras@,
                            Axis::X,
                            (#[trigger] r@[q]).0,
                        ) && spans_along(result@[q].cameras@, Axis::Y, r@[q].1),
                decreases result.len() - p,
            {
                assert(padding_fits(result@[p as int].cameras@));
                let x_spans = spans_of(&result[p].cameras, Axis::X);
                let y_spans = spans_of(&result[p].cameras, Axis::Y);
                r.push((x_spans, y_spans));
                p += 1;
            }
        }
        r
    }

    /// Arm the subpixel pass: from the measured round trips, compute the host's
    /// own schedule.
    pub fn trigger_cameras_subpix(
        &self,
        rtts: &Vec<Option<u32>>,
        spans_by_projector: &Vec<AxisSpans>,
        start_delay: u32,
        interval: u32,
    ) -> (r: Result<(RoundTrips, VecDeque<u32>), CalibrationError>)
        requires
            rtts@.len() > 0,
            all_wf(spans_by_projector@),
            all_answered(rtts@) ==> forall|i: int|
                0 <= i < rtts@.len() ==> (#[trigger] rtts@[i])->Some_0 + start_delay + (most_lines(
                    spans_by_projector@,
                ) + 1) * interval <= u32::MAX,
        ensures
            all_answered(rtts@) <==> r is Ok,
            r is Err ==> r->Err_0 == CalibrationError::RttFailed,
            r is Ok ==> {
                let trips = r->Ok_0.0;
                &&& trips.each@.len() == rtts@.len()
                &&& forall|i: int| 0 <= i < rtts@.len() ==> rtts@[i] == Some(#[trigger] trips.each@[i])
                &&& largest(trips.each@, trips.longest)
                &&& r->Ok_0.1@ == even_schedule(
                    trips.longest + start_delay,
                    interval as int,
                    most_lines(spans_by_projector@) + 1,
                )
            },
    {
        let trips = match gather_round_trips(rtts) {
            Some(trips) => trips,
            None => {
                return Err(CalibrationError::RttFailed);
            },
        };
        let n: usize = additional_pattern_count(spans_by_projector);
        proof {
            let k = choose|k: int| 0 <= k < trips.each@.len() && trips.each@[k] == trips.longest;
            assert(rtts@[k] == Some(trips.each@[k]));
            assert(0 <= (n + 1) * interval) by (nonlinear_arith)
                requires
                    0 <= n,
                    0 <= interval,
            ;
        }
        let times = generate_timestamps_subpix(n + 1, trips.longest + start_delay, interval);
        let mut queue: VecDeque<u32> = VecDeque::new();
        let mut i: usize = 0;
        while i < times.len()
            invariant
                i <= times.len(),
                queue@ =~= times@.take(i as int),
            decreases times.len() - i,
        {
            queue.push_back(times[i]);
            i += 1;
        }
        assert(times@.take(i as int) =~= times@);
        Ok((trips, queue))
    }

    /// Collect the refined position per camera, for every projector, rounded to
    /// binary32. Reports for projectors that do not exist, and by cameras that
    /// took no part, are dropped.
    pub fn calibrate_subpix(
        &self,
        spans_by_projector: &Vec<AxisSpans>,
        reports: &Vec<HashMap<ProjectorId, Point2d>>,
    ) -> (r: Vec<HashMap<CameraId, Point2f>>)
        requires
            spans_by_projector@.len() <= self.projector_count,
            all_grouped(spans_by_projector@),
        ensures
            r@.len() == self.projector_count,
            forall|p: int|
                0 <= p < r@.len() ==> rounded(
                    refinements(spans_by_projector@, reports@, p),
                    (#[trigger] r@[p])@,
                ),
    {
        let mut r: Vec<HashMap<CameraId, Point2f>> = Vec::new();
        let mut p: usize = 0;
        while p < self.projector_count
            invariant
                all_grouped(spans_by_projector@),
                p <= self.projector_count,
                r@.len() == p,
                forall|q: int|
                    0 <= q < p ==> rounded(
                        refinements(spans_by_projector@, reports@, q),
                        (#[trigger] r@[q])@,
                    ),
            decreases self.projector_count - p,
        {
            r.push(collect_refinements(spans_by_projector, reports, p));
            p += 1;
        }
        r
    }
}

/// The capture schedule of one camera for the subpixel pass, `elapsed_ms` after
/// the host's clock started.
pub fn camera_timestamps_subpix(
    trips: &RoundTrips,
    camera: usize,
    additional_pattern_count: usize,
    start_delay: u32,
    capture_delay: u32,
    elapsed_ms: u128,
    interval: u32,
) -> (times: Vec<u32>)
    requires
        camera < trips.each@.len(),
        trips.longest + start_delay + capture_delay <= u32::MAX,
        camera_start(
            trips.longest,
            start_delay,
            capture_delay,
            trips.each@[camera as int],
            elapsed_ms,
        ) >= 0,
        camera_start(
            trips.longest,
            start_delay,
            capture_delay,
            trips.each@[camera as int],
            elapsed_ms,
        ) + additional_pattern_count * interval <= u32::MAX,
    ensures
        times@ == even_schedule(
            camera_start(
                trips.longest,
                start_delay,
                capture_delay,
                trips.each@[camera as int],
                elapsed_ms,
            ),
            interval as int,
            additional_pattern_count as int,
        ),
{
    let start: u32 = camera_start_delay(
        trips.longest,
        start_delay,
        capture_delay,
        trips.each[camera],
        elapsed_ms,
    );
    generate_timestamps_subpix(additional_pattern_count, start, interval)
}

/// The refined positions of projector `p`, by camera.
fn collect_refinements(
    spans_by_projector: &Vec<AxisSpans>,
    reports: &Vec<HashMap<ProjectorId, Point2d>>,
    p: usize,
) -> (r: HashMap<CameraId, Point2f>)
    requires
        all_grouped(spans_by_projector@),
    ensures
        rounded(refinements(spans_by_projector@, reports@, p as int), r@),
{
    let mut r: HashMap<CameraId, Point2f> = HashMap::new();
    let ghost all = refinements(spans_by_projector@, reports@, p as int);
    if p < spans_by_projector.len() && p as u64 <= u32::MAX as u64 {
        assert(spans_by_projector@[p as int].0.tag_groups@.len()
            <= spans_by_projector@[p as int].0.spans@.len());
        let id: u32 = p as u32;
        let mut c: usize = 0;
        while c < reports.len()
            invariant
                p < spans_by_projector.len(),
                spans_by_projector@[p as int].0.tag_groups@.len()
                    <= spans_by_projector@[p as int].0.spans@.len(),
                id == p,
                all == refinements(spans_by_projector@, reports@, p as int),
                c <= reports.len(),
                forall|d: CameraId| #[trigger]
                    r@.contains_key(d) <==> d < c && all.contains_key(d),
                forall|d: CameraId| #[trigger]
                    r@.contains_key(d) ==> point_rounds(all[d], r@[d]),
            decreases reports.len() - c,
        {
            if let Some(position) = reports[c].get(&id) {
                if spans_by_projector[p].0.get_span_by_tag(c).is_some() {
                    r.insert(c, Point2f { x: position.x.to_f32(), y: position.y.to_f32() });
                }
            }
            c += 1;
        }
    }
    assert(r@.dom() =~= all.dom());
    r
}

// ---- laws ----

/// Along either axis, exactly the cameras of the coarse result have a scan
/// range: a camera that has one along X has one along Y.
pub proof fn law_every_camera_is_swept(
    cameras: Map<CameraId, CameraResult>,
    axis: Axis,
    spans: CoordinateSpans,
    camera: CameraId,
)
    requires
        spans_along(cameras, axis, spans),
    ensures
        spans.has_tag(camera) <==> cameras.contains_key(camera),
{
    let pairs = choose|pairs: Seq<(i32, usize)>|
        observed(cameras, axis, pairs) && #[trigger] clusters_of(SPAN_PADDING as int, pairs, spans);
    law_every_tag_has_a_span(SPAN_PADDING as int, pairs, spans, camera);
}

/// The scan range of a camera surrounds its coarse position by the padding on
/// both sides.
pub proof fn law_sweep_surrounds_coarse_position(
    cameras: Map<CameraId, CameraResult>,
    axis: Axis,
    spans: CoordinateSpans,
    camera: CameraId,
)
    requires
        padding_fits(cameras),
        spans_along(cameras, axis, spans),
        cameras.contains_key(camera),
    ensures
        spans.span_of(camera) is Some,
        spans.span_of(camera)->Some_0.start <= coordinate(cameras[camera], axis) - SPAN_PADDING,
        coordinate(cameras[camera], axis) + SPAN_PADDING <= spans.span_of(camera)->Some_0.end,
{
    let pairs = choose|pairs: Seq<(i32, usize)>|
        observed(cameras, axis, pairs) && #[trigger] clusters_of(SPAN_PADDING as int, pairs, spans);
    lemma_padding_of_pairs(cameras, axis, pairs);
    assert forall|j: int, k: int|
        0 <= j < pairs.len() && 0 <= k < pairs.len() && (#[trigger] pairs[j]).1 == (
        #[trigger] pairs[k]).1 implies j == k by {
        if j < k {
            assert(pairs[j].1 < pairs[k].1);
        } else if k < j {
            assert(pairs[k].1 < pairs[j].1);
        }
    }
    let i = choose|i: int| 0 <= i < pairs.len() && (#[trigger] pairs[i]).1 == camera;
    law_span_surrounds_value(SPAN_PADDING as int, pairs, spans, i);
}

/// The padded coordinates of `pairs` are coordinates themselves.
proof fn lemma_padding_of_pairs(
    cameras: Map<CameraId, CameraResult>,
    axis: Axis,
    pairs: Seq<(i32, usize)>,
)
    requires
        padding_fits(cameras),
        observed(cameras, axis, pairs),
    ensures
        forall|i: int|
            0 <= i < pairs.len() ==> i32::MIN <= (#[trigger] pairs[i]).0 - SPAN_PADDING && pairs[i].0
                + SPAN_PADDING <= i32::MAX,
{
    assert forall|i: int| 0 <= i < pairs.len() implies i32::MIN <= (#[trigger] pairs[i]).0
        - SPAN_PADDING && pairs[i].0 + SPAN_PADDING <= i32::MAX by {
        assert(cameras.contains_key(pairs[i].1));
        assert(pairs[i].0 == coordinate(cameras[pairs[i].1], axis));
    }
}

/// Where all coarse positions lie on a projector of `extent` pixels, the scan
/// ranges are well formed.
pub proof fn law_spans_on_projector_well_formed(
    cameras: Map<CameraId, CameraResult>,
    axis: Axis,
    spans: CoordinateSpans,
    extent: int,
)
    requires
        spans_along(cameras, axis, spans),
        extent <= i32::MAX - 2 * SPAN_PADDING,
        forall|c: CameraId|
            cameras.contains_key(c) ==> 0 <= #[trigger] coordinate(cameras[c], axis) < extent,
    ensures
        spans.wf(),
{
    let pairs = choose|pairs: Seq<(i32, usize)>|
        observed(cameras, axis, pairs) && #[trigger] clusters_of(SPAN_PADDING as int, pairs, spans);
    assert forall|i: int| 0 <= i < pairs.len() implies 0 <= (#[trigger] pairs[i]).0 <= extent - 1 by {
        assert(cameras.contains_key(pairs[i].1));
        assert(pairs[i].0 == coordinate(cameras[pairs[i].1], axis));
    }
    law_spans_well_formed(SPAN_PADDING as int, pairs, spans, 0, extent - 1);
}

/// No projector has more scan lines than the sweep has frames.
pub proof fn law_sweep_is_long_enough(spans: Seq<AxisSpans>, p: int)
    requires
        0 <= p < spans.len(),
    ensures
        lines_of(spans[p]) <= most_lines(spans),
    decreases spans.len(),
{
    if p < spans.len() - 1 {
        law_sweep_is_long_enough(spans.drop_last(), p);
    }
}

/// A camera finds every coordinate of its ranges where its entry says: the X
/// line of a coordinate is shown in the frame of its offset in the X range, the
/// Y line in the frame of its offset in the Y range counted from `y_starts_on`,
/// and both are frames of the sweep.
pub proof fn law_entry_matches_sweep(spans: Seq<AxisSpans>, p: int, camera: CameraId, x: i32, y: i32)
    requires
        all_wf(spans),
        0 <= p < spans.len(),
        spans[p].0.has_tag(camera),
        spans[p].1.has_tag(camera),
        entry_for(spans[p], camera).x_span.start <= x <= entry_for(spans[p], camera).x_span.end,
        entry_for(spans[p], camera).y_span.start <= y <= entry_for(spans[p], camera).y_span.end,
    ensures
        ({
            let entry = entry_for(spans[p], camera);
            let i = x - entry.x_span.start;
            let j = entry.y_starts_on + (y - entry.y_span.start);
            &&& 0 <= i < most_lines(spans)
            &&& 0 <= j < most_lines(spans)
            &&& sweep_frame(p, spans[p], i) matches SweepAction::Lines { axis, values, .. }
                && axis == Axis::X && values.contains(x)
            &&& sweep_frame(p, spans[p], j) matches SweepAction::Lines { axis, values, .. }
                && axis == Axis::Y && values.contains(y)
        }),
{
    assert(spans[p].0.wf() && spans[p].1.wf());
    let (xs, ys) = (spans[p].0, spans[p].1);
    law_span_of_is_a_span(xs, camera);
    law_span_of_is_a_span(ys, camera);
    let c = choose|c: int|
        0 <= c < xs.tag_groups@.len() && xs.span_of(camera) == Some(#[trigger] xs.spans@[c])
            && xs.tag_groups@[c]@.contains(camera);
    let d = choose|d: int|
        0 <= d < ys.tag_groups@.len() && ys.span_of(camera) == Some(#[trigger] ys.spans@[d])
            && ys.tag_groups@[d]@.contains(camera);
    law_sweep_covers(xs.spans@, c, x);
    law_sweep_covers(ys.spans@, d, y);
    lemma_longest_fits(xs.spans@);
    lemma_longest_fits(ys.spans@);
    law_sweep_is_long_enough(spans, p);
}

/// The longest of well-formed ranges has a length that fits its type.
proof fn lemma_longest_fits(spans: Seq<Span>)
    requires
        forall|c: int| 0 <= c < spans.len() ==> 1 <= span_len(#[trigger] spans[c]) <= i32::MAX,
    ensures
        0 <= longest(spans) <= i32::MAX,
    decreases spans.len(),
{
    if spans.len() > 0 {
        assert(spans.last() == spans[spans.len() - 1]);
        lemma_longest_fits(spans.drop_last());
    }
}

/// The sweep takes exactly the times of the host's schedule.
pub proof fn law_sweep_uses_up_schedule(spans: Seq<AxisSpans>, start: int, interval: int)
    requires
        all_wf(spans),
    ensures
        even_schedule(start, interval, most_lines(spans) + 1).skip(most_lines(spans) + 1) == Seq::<
            u32,
        >::empty(),
{
    lemma_most_lines_nonnegative(spans);
    assert(even_schedule(start, interval, most_lines(spans) + 1).skip(most_lines(spans) + 1)
        =~= Seq::<u32>::empty());
}

/// The number of frames of a sweep is not negative.
proof fn lemma_most_lines_nonnegative(spans: Seq<AxisSpans>)
    ensures
        0 <= most_lines(spans),
    decreases spans.len(),
{
    if spans.len() > 0 {
        lemma_most_lines_nonnegative(spans.drop_last());
    }
}

/// The refinements of a projector come from cameras that took part in its sweep.
pub proof fn law_refinements_are_swept(
    spans: Seq<AxisSpans>,
    reports: Seq<HashMap<ProjectorId, Point2d>>,
    p: int,
    camera: CameraId,
)
    requires
        refinements(spans, reports, p).contains_key(camera),
    ensures
        0 <= p < spans.len(),
        entry_for(spans[p], camera).x_span == spans[p].0.span_of(camera)->Some_0,
        refinements(spans, reports, p)[camera] == reports[camera as int]@[p as u32],
{
}

/// The refined positions are complete and exact: a camera is in the map of a projector
/// exactly if it reported that projector and has a scan range for it, and its position
/// there is what it reported, rounded to binary32.
pub proof fn law_refined_positions(
    run: &Calibrator,
    spans: &Vec<AxisSpans>,
    reports: &Vec<HashMap<ProjectorId, Point2d>>,
    r: Vec<HashMap<CameraId, Point2f>>,
    p: int,
    c: CameraId,
)
    requires
        call_ensures(Calibrator::calibrate_subpix, (run, spans, reports), r),
        0 <= p < run.projector_count,
    ensures
        r@.len() == run.projector_count,
        r@[p]@.contains_key(c) <==> {
            &&& c < reports@.len()
            &&& p < spans@.len()
            &&& p <= u32::MAX
            &&& reports@[c as int]@.contains_key(p as u32)
            &&& exists|g: int|
                0 <= g < spans@[p].0.tag_groups@.len() && (
                #[trigger] spans@[p].0.tag_groups@[g])@.contains(c)
        },
        r@[p]@.contains_key(c) ==> reports@[c as int]@[p as u32].x.rounds_to(r@[p]@[c].x)
            && reports@[c as int]@[p as u32].y.rounds_to(r@[p]@[c].y),
{
    let precise = refinements(spans@, reports@, p);
    assert(rounded(precise, r@[p]@));
    assert(r@[p]@.contains_key(c) <==> precise.contains_key(c));
}

/// The two coordinates of a coarse position can be padded.
pub open spec fn can_be_swept(at: Point2i) -> bool {
    i32::MIN + 5 <= at.x <= i32::MAX - 5 && i32::MIN + 5 <= at.y <= i32::MAX - 5
}

/// Positions that can be swept can be padded along either axis.
proof fn lemma_swept_fits(cameras: Map<CameraId, CameraResult>)
    requires
        forall|c: CameraId| #[trigger]
            cameras.contains_key(c) ==> can_be_swept(cameras[c].camera_position_in_projector),
    ensures
        padding_fits(cameras),
{
    assert forall|c: CameraId, axis: Axis| cameras.contains_key(c) implies i32::MIN
        <= #[trigger] coordinate(cameras[c], axis) - SPAN_PADDING && coordinate(cameras[c], axis)
        + SPAN_PADDING <= i32::MAX by {
        assert(can_be_swept(cameras[c].camera_position_in_projector));
    }
}

/// For every camera of the coarse result, and no other, there is a range along X that
/// reaches 5 pixels to both sides of the x of its coarse position, and one along Y for
/// its y.
pub proof fn law_ranges_surround_cameras(run: &Calibrator, r: Vec<AxisSpans>, p: int, c: CameraId)
    requires
        call_ensures(Calibrator::subpix_spans, (run,), r),
        run.result is Some,
        0 <= p < run.result->Some_0@.len(),
        forall|d: CameraId| #[trigger]
            run.result->Some_0@[p].cameras@.contains_key(d) ==> can_be_swept(
                run.result->Some_0@[p].cameras@[d].camera_position_in_projector,
            ),
    ensures
        r@.len() == run.result->Some_0@.len(),
        run.result->Some_0@[p].cameras@.contains_key(c) ==> {
            let at = run.result->Some_0@[p].cameras@[c].camera_position_in_projector;
            let (xs, ys) = (r@[p].0, r@[p].1);
            &&& exists|g: int|
                0 <= g < xs.spans@.len() && (#[trigger] xs.tag_groups@[g])@.contains(c)
                    && xs.spans@[g].start <= at.x - 5 && at.x + 5 <= xs.spans@[g].end
            &&& exists|g: int|
                0 <= g < ys.spans@.len() && (#[trigger] ys.tag_groups@[g])@.contains(c)
                    && ys.spans@[g].start <= at.y - 5 && at.y + 5 <= ys.spans@[g].end
        },
        !run.result->Some_0@[p].cameras@.contains_key(c) ==> {
            &&& forall|g: int|
                0 <= g < r@[p].0.tag_groups@.len() ==> !(#[trigger] r@[p].0.tag_groups@[g])@.contains(
                    c,
                )
            &&& forall|g: int|
                0 <= g < r@[p].1.tag_groups@.len() ==> !(#[trigger] r@[p].1.tag_groups@[g])@.contains(
                    c,
                )
        },
{
    let cameras = run.result->Some_0@[p].cameras@;
    lemma_swept_fits(cameras);
    assert(spans_along(cameras, Axis::X, r@[p].0) && spans_along(cameras, Axis::Y, r@[p].1));
    law_every_camera_is_swept(cameras, Axis::X, r@[p].0, c);
    law_every_camera_is_swept(cameras, Axis::Y, r@[p].1, c);
    if cameras.contains_key(c) {
        lemma_range_surrounds(cameras, Axis::X, r@[p].0, c);
        lemma_range_surrounds(cameras, Axis::Y, r@[p].1, c);
    } else {
        assert forall|g: int|
            0 <= g < r@[p].0.tag_groups@.len() implies !(#[trigger] r@[p].0.tag_groups@[g])@.contains(
            c,
        ) by {
            assert(!r@[p].0.has_tag(c));
        }
        assert forall|g: int|
            0 <= g < r@[p].1.tag_groups@.len() implies !(#[trigger] r@[p].1.tag_groups@[g])@.contains(
            c,
        ) by {
            assert(!r@[p].1.has_tag(c));
        }
    }
}

/// The range of a camera along one axis.
proof fn lemma_range_surrounds(
    cameras: Map<CameraId, CameraResult>,
    axis: Axis,
    spans: CoordinateSpans,
    c: CameraId,
)
    requires
        padding_fits(cameras),
        spans_along(cameras, axis, spans),
        cameras.contains_key(c),
    ensures
        exists|g: int|
            0 <= g < spans.spans@.len() && (#[trigger] spans.tag_groups@[g])@.contains(c)
                && spans.spans@[g].start <= coordinate(cameras[c], axis) - 5 && coordinate(
                cameras[c],
                axis,
            ) + 5 <= spans.spans@[g].end,
{
    let pairs = choose|pairs: Seq<(i32, usize)>|
        observed(cameras, axis, pairs) && #[trigger] clusters_of(SPAN_PADDING as int, pairs, spans);
    lemma_padding_of_pairs(cameras, axis, pairs);
    let i = choose|i: int| 0 <= i < pairs.len() && (#[trigger] pairs[i]).1 == c;
    crate::coordinate_spans::lemma_pair_in_group(SPAN_PADDING, pairs, spans, i);
    assert(pairs[i].0 == coordinate(cameras[c], axis));
    let g = choose|g: int|
        0 <= g < spans.spans@.len() && (#[trigger] spans.tag_groups@[g])@.contains(pairs[i].1)
            && spans.spans@[g].start <= pairs[i].0 - SPAN_PADDING && pairs[i].0 + SPAN_PADDING
            <= spans.spans@[g].end;
    assert(spans.tag_groups@[g]@.contains(c));
}

/// Ranges are no longer than they must be, and are shared where they can be: along X,
/// a range begins 5 pixels before the x of some camera and ends 5 behind that of some
/// camera; above a camera of it that is not the last there is another at most 5 pixels
/// higher; and the cameras of two successive ranges are more than 5 pixels apart.
pub proof fn law_x_ranges_are_tight(run: &Calibrator, r: Vec<AxisSpans>, p: int, g: int, c: CameraId)
    requires
        call_ensures(Calibrator::subpix_spans, (run,), r),
        run.result is Some,
        0 <= p < run.result->Some_0@.len(),
        forall|d: CameraId| #[trigger]
            run.result->Some_0@[p].cameras@.contains_key(d) ==> can_be_swept(
                run.result->Some_0@[p].cameras@[d].camera_position_in_projector,
            ),
        0 <= g < r@[p].0.spans@.len(),
    ensures
        ({
            let cameras = run.result->Some_0@[p].cameras@;
            let spans = r@[p].0.spans@;
            &&& exists|d: CameraId| #[trigger]
                cameras.contains_key(d) && cameras[d].camera_position_in_projector.x - 5
                    == spans[g].start
            &&& exists|d: CameraId| #[trigger]
                cameras.contains_key(d) && cameras[d].camera_position_in_projector.x + 5
                    == spans[g].end
            &&& cameras.contains_key(c) && spans[g].start + 5
                <= cameras[c].camera_position_in_projector.x < spans[g].end - 5 ==> exists|
                d: CameraId,
            | #[trigger]
                cameras.contains_key(d) && cameras[c].camera_position_in_projector.x
                    < cameras[d].camera_position_in_projector.x
                    <= cameras[c].camera_position_in_projector.x + 5
            &&& g + 1 < spans.len() ==> (spans[g + 1].start + 5) - (spans[g].end - 5) > 5
        }),
{
    let cameras = run.result->Some_0@[p].cameras@;
    lemma_swept_fits(cameras);
    assert(spans_along(cameras, Axis::X, r@[p].0));
    lemma_ranges_tight(cameras, Axis::X, r@[p].0, g, c);
    let a = choose|d: CameraId| #[trigger]
        cameras.contains_key(d) && coordinate(cameras[d], Axis::X) - 5 == r@[p].0.spans@[g].start;
    assert(cameras[a].camera_position_in_projector.x - 5 == r@[p].0.spans@[g].start);
    let b = choose|d: CameraId| #[trigger]
        cameras.contains_key(d) && coordinate(cameras[d], Axis::X) + 5 == r@[p].0.spans@[g].end;
    assert(cameras[b].camera_position_in_projector.x + 5 == r@[p].0.spans@[g].end);
}

/// The same along Y.
pub proof fn law_y_ranges_are_tight(run: &Calibrator, r: Vec<AxisSpans>, p: int, g: int, c: CameraId)
    requires
        call_ensures(Calibrator::subpix_spans, (run,), r),
        run.result is Some,
        0 <= p < run.result->Some_0@.len(),
        forall|d: CameraId| #[trigger]
            run.result->Some_0@[p].cameras@.contains_key(d) ==> can_be_swept(
                run.result->Some_0@[p].cameras@[d].camera_position_in_projector,
            ),
        0 <= g < r@[p].1.spans@.len(),
    ensures
        ({
            let cameras = run.result->Some_0@[p].cameras@;
            let spans = r@[p].1.spans@;
            &&& exists|d: CameraId| #[trigger]
                cameras.contains_key(d) && cameras[d].camera_position_in_projector.y - 5
                    == spans[g].start
            &&& exists|d: CameraId| #[trigger]
                cameras.contains_key(d) && cameras[d].camera_position_in_projector.y + 5
                    == spans[g].end
            &&& cameras.contains_key(c) && spans[g].start + 5
                <= cameras[c].camera_position_in_projector.y < spans[g].end - 5 ==> exists|
                d: CameraId,
            | #[trigger]
                cameras.contains_key(d) && cameras[c].camera_position_in_projector.y
                    < cameras[d].camera_position_in_projector.y
                    <= cameras[c].camera_position_in_projector.y + 5
            &&& g + 1 < spans.len() ==> (spans[g + 1].start + 5) - (spans[g].end - 5) > 5
        }),
{
    let cameras = run.result->Some_0@[p].cameras@;
    lemma_swept_fits(cameras);
    assert(spans_along(cameras, Axis::Y, r@[p].1));
    lemma_ranges_tight(cameras, Axis::Y, r@[p].1, g, c);
    let a = choose|d: CameraId| #[trigger]
        cameras.contains_key(d) && coordinate(cameras[d], Axis::Y) - 5 == r@[p].1.spans@[g].start;
    assert(cameras[a].camera_position_in_projector.y - 5 == r@[p].1.spans@[g].start);
    let b = choose|d: CameraId| #[trigger]
        cameras.contains_key(d) && coordinate(cameras[d], Axis::Y) + 5 == r@[p].1.spans@[g].end;
    assert(cameras[b].camera_position_in_projector.y + 5 == r@[p].1.spans@[g].end);
}

/// Ranges along one axis are tight, connected and apart.
proof fn lemma_ranges_tight(
    cameras: Map<CameraId, CameraResult>,
    axis: Axis,
    spans: CoordinateSpans,
    g: int,
    c: CameraId,
)
    requires
        padding_fits(cameras),
        spans_along(cameras, axis, spans),
        0 <= g < spans.spans@.len(),
    ensures
        exists|d: CameraId| #[trigger]
            cameras.contains_key(d) && coordinate(cameras[d], axis) - 5 == spans.spans@[g].start,
        exists|d: CameraId| #[trigger]
            cameras.contains_key(d) && coordinate(cameras[d], axis) + 5 == spans.spans@[g].end,
        cameras.contains_key(c) && spans.spans@[g].start + 5 <= coordinate(cameras[c], axis)
            < spans.spans@[g].end - 5 ==> exists|d: CameraId| #[trigger]
            cameras.contains_key(d) && coordinate(cameras[c], axis) < coordinate(cameras[d], axis)
                <= coordinate(cameras[c], axis) + 5,
        g + 1 < spans.spans@.len() ==> (spans.spans@[g + 1].start + 5) - (spans.spans@[g].end - 5) > 5,
{
    let pairs = choose|pairs: Seq<(i32, usize)>|
        observed(cameras, axis, pairs) && #[trigger] clusters_of(SPAN_PADDING as int, pairs, spans);
    lemma_padding_of_pairs(cameras, axis, pairs);
    crate::coordinate_spans::lemma_ends(SPAN_PADDING, pairs, spans, g);
    let a = choose|i: int|
        0 <= i < pairs.len() && (#[trigger] pairs[i]).0 - SPAN_PADDING == spans.spans@[g].start;
    assert(cameras.contains_key(pairs[a].1));
    let b = choose|i: int|
        0 <= i < pairs.len() && (#[trigger] pairs[i]).0 + SPAN_PADDING == spans.spans@[g].end;
    assert(cameras.contains_key(pairs[b].1));
    if cameras.contains_key(c) && spans.spans@[g].start + 5 <= coordinate(cameras[c], axis)
        < spans.spans@[g].end - 5 {
        let i = choose|i: int| 0 <= i < pairs.len() && (#[trigger] pairs[i]).1 == c;
        assert(pairs[i].0 == coordinate(cameras[c], axis));
        crate::coordinate_spans::lemma_connected(SPAN_PADDING, pairs, spans, g, i);
        let j = choose|j: int|
            0 <= j < pairs.len() && pairs[i].0 < (#[trigger] pairs[j]).0 <= pairs[i].0 + SPAN_PADDING;
        assert(cameras.contains_key(pairs[j].1));
    }
    if g + 1 < spans.spans@.len() {
        crate::coordinate_spans::lemma_apart(SPAN_PADDING, pairs, spans, g);
    }
}

/// The number of frames of a sweep is what the projector with most scan lines needs:
/// no projector needs more, and one needs so many, a line per offset along X and then
/// one per offset along Y.
pub proof fn law_frames_of_the_sweep(spans: &Vec<AxisSpans>, n: usize)
    requires
        call_ensures(additional_pattern_count, (spans,), n),
    ensures
        forall|p: int|
            0 <= p < spans@.len() ==> longest((#[trigger] spans@[p]).0.spans@) + longest(
                spans@[p].1.spans@,
            ) <= n,
        n > 0 ==> exists|p: int|
            0 <= p < spans@.len() && longest((#[trigger] spans@[p]).0.spans@) + longest(
                spans@[p].1.spans@,
            ) == n,
{
    assert forall|p: int| 0 <= p < spans@.len() implies longest((#[trigger] spans@[p]).0.spans@)
        + longest(spans@[p].1.spans@) <= n by {
        law_sweep_is_long_enough(spans@, p);
    }
    lemma_most_lines_attained(spans@);
}

/// Some projector has as many scan lines as the most.
proof fn lemma_most_lines_attained(spans: Seq<AxisSpans>)
    ensures
        most_lines(spans) > 0 ==> exists|p: int|
            0 <= p < spans.len() && longest((#[trigger] spans[p]).0.spans@) + longest(
                spans[p].1.spans@,
            ) == most_lines(spans),
    decreases spans.len(),
{
    if spans.len() > 0 {
        let head = spans.drop_last();
        let n = spans.len() - 1;
        lemma_most_lines_attained(head);
        if most_lines(spans) > 0 {
            if lines_of(spans.last()) > most_lines(head) {
                assert(longest(spans[n].0.spans@) + longest(spans[n].1.spans@) == most_lines(spans));
            } else {
                let p = choose|p: int|
                    0 <= p < head.len() && longest((#[trigger] head[p]).0.spans@) + longest(
                        head[p].1.spans@,
                    ) == most_lines(head);
                assert(longest(spans[p].0.spans@) + longest(spans[p].1.spans@) == most_lines(spans));
            }
        }
    }
}

/// What a camera is told of a projector: where it has a range along X, that range, its
/// range along Y, and that the Y lines begin after as many frames as the longest X
/// range has coordinates; otherwise zeros.
pub proof fn law_entries_tell_the_ranges(
    spans: &Vec<AxisSpans>,
    camera: CameraId,
    entries: Vec<SubpixEntry>,
    p: int,
)
    requires
        call_ensures(subpix_entries, (spans, camera), entries),
        all_wf(spans@),
        0 <= p < spans@.len(),
        forall|g: int|
            0 <= g < spans@[p].0.tag_groups@.len() && (
            #[trigger] spans@[p].0.tag_groups@[g])@.contains(camera) ==> exists|k: int|
                0 <= k < spans@[p].1.tag_groups@.len() && (
                #[trigger] spans@[p].1.tag_groups@[k])@.contains(camera),
    ensures
        entries@.len() == spans@.len(),
        ({
            let (xs, ys, entry) = (spans@[p].0, spans@[p].1, entries@[p]);
            let swept = exists|g: int|
                0 <= g < xs.tag_groups@.len() && (#[trigger] xs.tag_groups@[g])@.contains(camera);
            &&& swept ==> exists|g: int|
                0 <= g < xs.tag_groups@.len() && (#[trigger] xs.tag_groups@[g])@.contains(camera)
                    && entry.x_span == xs.spans@[g]
            &&& swept ==> exists|g: int|
                0 <= g < ys.tag_groups@.len() && (#[trigger] ys.tag_groups@[g])@.contains(camera)
                    && entry.y_span == ys.spans@[g]
            &&& swept ==> (forall|g: int|
                0 <= g < xs.spans@.len() ==> (#[trigger] xs.spans@[g]).end - xs.spans@[g].start + 1
                    <= entry.y_starts_on) && exists|g: int|
                0 <= g < xs.spans@.len() && (#[trigger] xs.spans@[g]).end - xs.spans@[g].start + 1
                    == entry.y_starts_on
            &&& !swept ==> entry.x_span.start == 0 && entry.x_span.end == 0 && entry.y_span.start == 0
                && entry.y_span.end == 0 && entry.y_starts_on == 0
        }),
{
    let (xs, ys, entry) = (spans@[p].0, spans@[p].1, entries@[p]);
    assert(entry == entry_for(spans@[p], camera));
    assert(xs.wf() && ys.wf());
    if xs.has_tag(camera) {
        let g = choose|g: int|
            0 <= g < xs.tag_groups@.len() && (#[trigger] xs.tag_groups@[g])@.contains(camera);
        assert(ys.has_tag(camera));
        law_span_of_is_a_span(xs, camera);
        law_span_of_is_a_span(ys, camera);
        let a = choose|c: int|
            0 <= c < xs.tag_groups@.len() && xs.span_of(camera) == Some(#[trigger] xs.spans@[c])
                && xs.tag_groups@[c]@.contains(camera);
        let b = choose|c: int|
            0 <= c < ys.tag_groups@.len() && ys.span_of(camera) == Some(#[trigger] ys.spans@[c])
                && ys.tag_groups@[c]@.contains(camera);
        assert(xs.tag_groups@[a]@.contains(camera) && ys.tag_groups@[b]@.contains(camera));
        crate::coordinate_spans::law_longest_is_longest(xs.spans@);
        lemma_longest_fits(xs.spans@);
        assert(1 <= span_len(xs.spans@[a]));
    }
}

// ---- what a projector goes through ----

/// The times that are waited for, in order.
pub open spec fn sweep_waits(steps: Seq<SweepStep>) -> Seq<u32>
    decreases steps.len(),
{
    if steps.len() == 0 {
        seq![]
    } else {
        match steps.last() {
            SweepStep::WaitUntil(time) => sweep_waits(steps.drop_last()).push(time),
            _ => sweep_waits(steps.drop_last()),
        }
    }
}

/// The lines that are put on projector `p`, in order, each with the number of waits
/// before it.
pub open spec fn lit(steps: Seq<SweepStep>, p: usize) -> Seq<(nat, Axis, Seq<i32>)>
    decreases steps.len(),
{
    if steps.len() == 0 {
        seq![]
    } else {
        let before = steps.drop_last();
        match steps.last() {
            SweepStep::Lines { projector, axis, values } => if projector == p {
                lit(before, p).push((sweep_waits(before).len(), axis, values@))
            } else {
                lit(before, p)
            },
            _ => lit(before, p),
        }
    }
}

/// Steps of waits and lines, split into what comes before a place and what follows.
proof fn lemma_lit_concat(a: Seq<SweepStep>, b: Seq<SweepStep>, p: usize)
    ensures
        sweep_waits(a + b) == sweep_waits(a) + sweep_waits(b),
        lit(a + b, p) == lit(a, p) + lit(b, p).map_values(
            |e: (nat, Axis, Seq<i32>)| (e.0 + sweep_waits(a).len(), e.1, e.2),
        ),
    decreases b.len(),
{
    let shifted = |e: (nat, Axis, Seq<i32>)| (e.0 + sweep_waits(a).len(), e.1, e.2);
    if b.len() == 0 {
        assert(a + b =~= a);
        assert(sweep_waits(a) + sweep_waits(b) =~= sweep_waits(a));
        assert(lit(a, p) + lit(b, p).map_values(shifted) =~= lit(a, p));
    } else {
        lemma_lit_concat(a, b.drop_last(), p);
        assert((a + b).drop_last() =~= a + b.drop_last());
        assert((a + b).last() == b.last());
        assert(sweep_waits(a + b) =~= sweep_waits(a) + sweep_waits(b));
        assert(lit(a + b, p) =~= lit(a, p) + lit(b, p).map_values(shifted));
    }
}

/// One round of lines: each projector gets its own.
proof fn lemma_lit_round(steps: Seq<SweepStep>, spans: Seq<AxisSpans>, i: int, count: nat, p: usize)
    requires
        steps.len() == count,
        count <= spans.len(),
        forall|q: int| 0 <= q < count ==> (#[trigger] steps[q])@ == sweep_frame(q, spans[q], i),
    ensures
        sweep_waits(steps) == Seq::<u32>::empty(),
        p >= count ==> lit(steps, p) == Seq::<(nat, Axis, Seq<i32>)>::empty(),
        p < count ==> lit(steps, p).len() == 1 && lit(steps, p)[0].0 == 0 && (
        SweepAction::Lines {
            projector: p as int,
            axis: lit(steps, p)[0].1,
            values: lit(steps, p)[0].2,
        }) == sweep_frame(p as int, spans[p as int], i),
    decreases count,
{
    if count > 0 {
        let n = (count - 1) as nat;
        assert(steps[n as int]@ == sweep_frame(n as int, spans[n as int], i));
        assert(steps.last() == steps[n as int]);
        lemma_lit_round(steps.drop_last(), spans, i, n, p);
    }
}

/// The whole sweep, from frame `i` on.
proof fn lemma_lit_sweep(
    steps: Seq<SweepStep>,
    times: Seq<u32>,
    spans: Seq<AxisSpans>,
    i: int,
    n: int,
    p: usize,
)
    requires
        0 <= i <= n,
        times.len() >= n - i + 1,
        p < spans.len(),
        actions(steps) == sweep_actions(times, spans, i, n),
    ensures
        sweep_waits(steps) == times.take(n - i + 1),
        lit(steps, p).len() == n - i,
        forall|k: int|
            0 <= k < n - i ==> (#[trigger] lit(steps, p)[k]).0 == k + 1 && (SweepAction::Lines {
                projector: p as int,
                axis: lit(steps, p)[k].1,
                values: lit(steps, p)[k].2,
            }) == sweep_frame(p as int, spans[p as int], i + k),
    decreases n - i,
{
    let acts = sweep_actions(times, spans, i, n);
    assert(actions(steps).len() == steps.len());
    assert(steps[0]@ == actions(steps)[0]);
    assert(acts[0] == SweepAction::WaitUntil(times[0]));
    assert(steps[0] == SweepStep::WaitUntil(times[0]));
    let first = seq![steps[0]];
    assert(first.drop_last() =~= seq![]);
    reveal_with_fuel(sweep_waits, 2);
    reveal_with_fuel(lit, 2);
    assert(sweep_waits(first) =~= seq![times[0]]);
    assert(lit(first, p) =~= seq![]);
    if i == n {
        assert(steps =~= first);
        assert(sweep_waits(steps) =~= times.take(1));
    } else {
        let m = spans.len() as int;
        let round = steps.subrange(1, 1 + m);
        let rest = steps.skip(1 + m);
        let rest_acts = sweep_actions(times.skip(1), spans, i + 1, n);
        assert(acts =~= seq![SweepAction::WaitUntil(times[0])] + sweep_round(spans, i) + rest_acts);
        assert forall|q: int| 0 <= q < m implies (#[trigger] round[q])@ == sweep_frame(q, spans[q], i) by {
            assert(round[q]@ == actions(steps)[1 + q]);
            assert(acts[1 + q] == sweep_round(spans, i)[q]);
        }
        assert(actions(rest) =~= rest_acts) by {
            assert forall|k: int| 0 <= k < rest.len() implies #[trigger] actions(rest)[k] == rest_acts[k] by {
                assert(actions(rest)[k] == actions(steps)[1 + m + k]);
                assert(acts[1 + m + k] == rest_acts[k]);
            }
        }
        lemma_lit_round(round, spans, i, m as nat, p);
        lemma_lit_sweep(rest, times.skip(1), spans, i + 1, n, p);
        lemma_lit_concat(first, round, p);
        lemma_lit_concat(first + round, rest, p);
        assert(steps =~= first + round + rest);
        assert(sweep_waits(steps) =~= times.take(n - i + 1));
        assert forall|k: int| 0 <= k < n - i implies (#[trigger] lit(steps, p)[k]).0 == k + 1 && (
        SweepAction::Lines {
            projector: p as int,
            axis: lit(steps, p)[k].1,
            values: lit(steps, p)[k].2,
        }) == sweep_frame(p as int, spans[p as int], i + k) by {
            if k > 0 {
                assert(lit(steps, p)[k].1 == lit(rest, p)[k - 1].1);
                assert(lit(steps, p)[k].2 == lit(rest, p)[k - 1].2);
                assert(lit(steps, p)[k].0 == lit(rest, p)[k - 1].0 + 1);
                assert(i + 1 + (k - 1) == i + k);
            }
        }
    }
}

/// In a sweep, every projector is lit once after every wait but the last: first, offset
/// by offset, at the coordinates of its X ranges; then, offset by offset, at those of
/// its Y ranges; and then no more lines, until the sweep ends for all. What is waited
/// for are the times of the schedule, in order, and these are used up.
pub proof fn law_every_projector_is_swept(
    times: &mut VecDeque<u32>,
    spans: &Vec<AxisSpans>,
    steps: Vec<SweepStep>,
    p: usize,
    x_len: usize,
    y_len: usize,
    n: usize,
)
    requires
        call_ensures(process_subpix, (times, spans), steps),
        call_ensures(additional_pattern_count, (spans,), n),
        old(times)@.len() >= n + 1,
        p < spans@.len(),
        call_ensures(CoordinateSpans::max_len, (&spans@[p as int].0,), x_len),
        call_ensures(CoordinateSpans::max_len, (&spans@[p as int].1,), y_len),
    ensures
        sweep_waits(steps@) == old(times)@.take(n + 1),
        final(times)@ == old(times)@.skip(n + 1),
        lit(steps@, p).len() == n,
        x_len + y_len <= n,
        forall|k: int|
            0 <= k < x_len ==> (#[trigger] lit(steps@, p)[k]).0 == k + 1 && lit(steps@, p)[k].1
                == Axis::X && exists|picked: Seq<int>| #[trigger]
                takes_from(spans@[p as int].0.spans@, k, picked, lit(steps@, p)[k].2),
        forall|k: int|
            x_len <= k < x_len + y_len ==> (#[trigger] lit(steps@, p)[k]).0 == k + 1 && lit(
                steps@,
                p,
            )[k].1 == Axis::Y && exists|picked: Seq<int>| #[trigger]
                takes_from(spans@[p as int].1.spans@, k - x_len, picked, lit(steps@, p)[k].2),
        forall|k: int|
            x_len + y_len <= k < n ==> (#[trigger] lit(steps@, p)[k]).0 == k + 1 && lit(
                steps@,
                p,
            )[k].2.len() == 0,
{
    lemma_lit_sweep(steps@, old(times)@, spans@, 0, n as int, p);
    law_sweep_is_long_enough(spans@, p as int);
    let (xs, ys) = (spans@[p as int].0.spans@, spans@[p as int].1.spans@);
    assert forall|k: int| 0 <= k < x_len implies (#[trigger] lit(steps@, p)[k]).0 == k + 1 && lit(
        steps@,
        p,
    )[k].1 == Axis::X && exists|picked: Seq<int>| #[trigger]
        takes_from(xs, k, picked, lit(steps@, p)[k].2) by {
        crate::coordinate_spans::law_scan_line_takes_from(xs, k);
        assert(lit(steps@, p)[k].2 == scan_line(xs, k));
    }
    assert forall|k: int| x_len <= k < x_len + y_len implies (#[trigger] lit(steps@, p)[k]).0 == k + 1
        && lit(steps@, p)[k].1 == Axis::Y && exists|picked: Seq<int>| #[trigger]
        takes_from(ys, k - x_len, picked, lit(steps@, p)[k].2) by {
        crate::coordinate_spans::law_scan_line_takes_from(ys, k - x_len);
        assert(lit(steps@, p)[k].2 == scan_line(ys, k - x_len));
    }
}

/// The host's schedule of a sweep has a time for every frame and one more, the first
/// after the longest round trip and the start delay, and all the interval apart.
pub proof fn law_sweep_schedule(
    run: &Calibrator,
    rtts: &Vec<Option<u32>>,
    spans: &Vec<AxisSpans>,
    start_delay: u32,
    interval: u32,
    r: Result<(RoundTrips, VecDeque<u32>), CalibrationError>,
    n: usize,
)
    requires
        call_ensures(
            Calibrator::trigger_cameras_subpix,
            (run, rtts, spans, start_delay, interval),
            r,
        ),
        call_ensures(additional_pattern_count, (spans,), n),
        r is Ok,
        r->Ok_0.0.longest + start_delay + (n + 1) * interval <= u32::MAX,
    ensures
        r->Ok_0.1@.len() == n + 1,
        r->Ok_0.1@[0] == r->Ok_0.0.longest + start_delay,
        forall|i: int| 0 <= i < n ==> #[trigger] r->Ok_0.1@[i + 1] == r->Ok_0.1@[i] + interval,
        forall|i: int| 0 <= i < rtts@.len() ==> (#[trigger] rtts@[i]) is Some && rtts@[i]->Some_0
            <= r->Ok_0.0.longest,
{
    assert(0 * interval == 0) by (nonlinear_arith);
    assert forall|i: int| 0 <= i < n implies #[trigger] r->Ok_0.1@[i + 1] == r->Ok_0.1@[i] + interval by {
        assert((i + 1) * interval == i * interval + interval && 0 <= i * interval && (i + 1) * interval
            <= (n + 1) * interval) by (nonlinear_arith)
            requires
                0 <= i < n,
                0 <= interval,
        ;
    }
    let trips = r->Ok_0.0;
    assert forall|i: int| 0 <= i < rtts@.len() implies (#[trigger] rtts@[i]) is Some
        && rtts@[i]->Some_0 <= trips.longest by {
        assert(rtts@[i] == Some(trips.each@[i]));
    }
}

/// In a sweep too, a camera samples every frame when the host projects it, plus the
/// capture delay.
pub proof fn law_cameras_follow_the_sweep(
    trips: &RoundTrips,
    camera: usize,
    count: usize,
    start_delay: u32,
    capture_delay: u32,
    elapsed_ms: u128,
    interval: u32,
    times: Vec<u32>,
    i: int,
)
    requires
        call_ensures(
            camera_timestamps_subpix,
            (trips, camera, count, start_delay, capture_delay, elapsed_ms, interval),
            times,
        ),
        camera < trips.each@.len(),
        trips.longest + start_delay + capture_delay - trips.each@[camera as int] / 2 - (
        elapsed_ms as u32) >= 0,
        trips.longest + start_delay + capture_delay + count * interval <= u32::MAX,
        0 <= i < count,
    ensures
        times@.len() == count,
        times@[i] + trips.each@[camera as int] / 2 + (elapsed_ms as u32) == trips.longest + start_delay
            + i * interval + capture_delay,
{
    assert(0 <= i * interval <= count * interval) by (nonlinear_arith)
        requires
            0 <= i < count,
            0 <= interval,
    ;
}

} // verus!
