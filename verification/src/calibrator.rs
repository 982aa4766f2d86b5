//! One calibration run: what each projector shows when, and what the cameras'
//! reports add up to.
//!
//! [`Calibrator::calibrate`] arms a run ([`Calibrator::set_timestamps`]) and lays
//! out its phases ([`Calibrator::process_position`], [`Calibrator::process_id`]
//! and [`Calibrator::process_graycode`]), whose steps the caller carries out. The
//! run ends with [`Calibrator::finish`], which takes the cameras' reports.

use std::collections::{BTreeMap, HashMap, VecDeque};

use vstd::arithmetic::power2::pow2;
use vstd::prelude::*;
use vstd::string::*;

use crate::bits::{binary_digit, binary_digits, bit_length};
use crate::listing::put;
use crate::schedule::{
    all_answered, camera_start, camera_start_delay, frame_count, gather_round_trips,
    generate_timestamps, largest, run_fits, run_schedule, RoundTrips,
};
use crate::types::{
    CalibrationResult, CalibrationResultEntry, CameraId, CameraResult, ProjectorId,
};

verus! {

/// Why a calibration run did not go on.
#[derive(Clone, Copy, Debug, PartialEq, Eq, Structural)]
pub enum CalibrationError {
    /// Some camera did not answer the round-trip measurement.
    RttFailed,
    /// The run was not armed.
    NotStarted,
    /// Not all frames were projected.
    NotFinished,
}

impl CalibrationError {
    /// The message shown to the operator.
    pub fn message(self) -> (r: &'static str)
        ensures
            r@ == match self {
                CalibrationError::RttFailed => "Failed to get all RTT"@,
                CalibrationError::NotStarted => "Not started yet."@,
                CalibrationError::NotFinished => "Not finished yet."@,
            },
    {
        match self {
            CalibrationError::RttFailed => "Failed to get all RTT",
            CalibrationError::NotStarted => "Not started yet.",
            CalibrationError::NotFinished => "Not finished yet.",
        }
    }
}

/// What a projector shows.
#[derive(Clone, Copy, Debug, PartialEq, Eq, Structural)]
pub enum Frame {
    /// All pixels lit.
    White,
    /// No pixel lit.
    Black,
    /// The Gray-code image of that index.
    Graycode(usize),
}

/// A step of the projection, to be carried out by the caller.
#[derive(Clone, Copy, Debug, PartialEq, Eq, Structural)]
pub enum Step {
    /// Wait for that time of the host's schedule.
    WaitUntil(u32),
    /// Put a frame on the window of a projector.
    Show { projector: usize, frame: Frame },
    /// Let the windows repaint.
    Repaint,
}

/// The state of a calibration run.
#[derive(Debug)]
pub struct Calibrator {
    /// Projector width in pixels.
    pub width: u32,
    /// Projector height in pixels.
    pub height: u32,
    /// Number of projectors.
    pub projector_count: usize,
    /// Whether the run was armed, so that its clock runs.
    pub started: bool,
    /// The host's times for the frames that are still to be projected.
    pub client_timestamps: VecDeque<u32>,
    /// The result of the last run.
    pub result: Option<CalibrationResult>,
}

// ---- what is shown ----

/// The same frame on the projectors from 0 up to `count`.
pub open spec fn shown_on(frame: Frame, count: int) -> Seq<Step> {
    Seq::new(count as nat, |p: int| Step::Show { projector: p as usize, frame })
}

/// The same frame on all projectors, which then repaint.
pub open spec fn shown_on_all(frame: Frame, count: int) -> Seq<Step> {
    shown_on(frame, count).push(Step::Repaint)
}

/// White, then black.
pub open spec fn position_steps(times: Seq<u32>, count: int) -> Seq<Step> {
    seq![Step::WaitUntil(times[0])] + shown_on_all(Frame::White, count) + seq![
        Step::WaitUntil(times[1]),
    ] + shown_on_all(Frame::Black, count)
}

/// What projector `id` shows for bit `i` of its identity: white for 1 and black
/// for 0, and the opposite in the second, inverted frame.
pub open spec fn id_frame(id: int, i: int, inverted: bool) -> Frame {
    if (binary_digit(id as nat, i as nat) == 1) != inverted {
        Frame::White
    } else {
        Frame::Black
    }
}

/// Bit `i` of every projector's identity.
pub open spec fn id_round(count: int, i: int, inverted: bool) -> Seq<Step> {
    Seq::new(
        count as nat,
        |p: int| Step::Show { projector: p as usize, frame: id_frame(p, i, inverted) },
    )
}

/// The lowest `bits` bits of every projector's identity, the highest first,
/// each followed by its inverse.
pub open spec fn id_steps(times: Seq<u32>, count: int, bits: int) -> Seq<Step>
    decreases bits,
{
    if bits <= 0 {
        seq![]
    } else {
        seq![Step::WaitUntil(times[0])] + id_round(count, bits - 1, false) + seq![
            Step::WaitUntil(times[1]),
        ] + id_round(count, bits - 1, true) + id_steps(times.skip(2), count, bits - 1)
    }
}

/// The Gray-code images from `code` up to `codes`, then a last wait during which
/// the last image is read out.
pub open spec fn graycode_steps(times: Seq<u32>, count: int, code: int, codes: int) -> Seq<Step>
    decreases codes - code,
{
    if code >= codes {
        seq![Step::WaitUntil(times[0])]
    } else {
        seq![Step::WaitUntil(times[0])] + shown_on_all(Frame::Graycode(code as usize), count)
            + graycode_steps(times.skip(1), count, code + 1, codes)
    }
}

/// All steps of a run over the host's schedule `times`: position, identity, Gray
/// code.
pub open spec fn run_steps(times: Seq<u32>, count: int, id_bits: int, codes: int) -> Seq<Step> {
    position_steps(times, count) + id_steps(times.skip(2), count, id_bits) + graycode_steps(
        times.skip(2 + 2 * id_bits),
        count,
        0,
        codes,
    )
}

/// Append the same frame for all projectors.
fn show_on_all(steps: &mut Vec<Step>, frame: Frame, count: usize)
    ensures
        final(steps)@ == old(steps)@ + shown_on_all(frame, count as int),
{
    let ghost before = steps@;
    let mut p: usize = 0;
    while p < count
        invariant
            p <= count,
            steps@ =~= before + shown_on(frame, p as int),
        decreases count - p,
    {
        steps.push(Step::Show { projector: p, frame });
        p += 1;
    }
    steps.push(Step::Repaint);
    assert(steps@ =~= before + shown_on_all(frame, count as int));
}

/// Append bit `i` of every projector's identity.
fn show_id_bit(steps: &mut Vec<Step>, count: usize, i: u32, inverted: bool)
    requires
        i < 64,
    ensures
        final(steps)@ == old(steps)@ + id_round(count as int, i as int, inverted),
{
    let ghost before = steps@;
    let mut p: usize = 0;
    while p < count
        invariant
            i < 64,
            p <= count,
            steps@ =~= before + id_round(p as int, i as int, inverted),
        decreases count - p,
    {
        let id: u64 = p as u64;
        let shift: u64 = i as u64;
        let shifted: u64 = id >> shift;
        let bit: u64 = shifted & 1;
        proof {
            vstd::bits::lemma_u64_shr_is_div(id, shift);
            assert(shifted & 1 == shifted % 2) by (bit_vector);
            assert(bit == binary_digit(p as nat, i as nat));
        }
        let frame = if (bit == 0) == inverted {
            Frame::White
        } else {
            Frame::Black
        };
        assert(frame == id_frame(p as int, i as int, inverted));
        steps.push(Step::Show { projector: p, frame });
        p += 1;
    }
}

// ---- what the cameras report ----

/// One report per camera; `None` where the camera could not be asked.
pub type Reports = Vec<Option<HashMap<ProjectorId, CameraResult>>>;

/// Whether camera `c` reported a correspondence for projector `p`.
pub open spec fn reported(
    reports: Seq<Option<HashMap<ProjectorId, CameraResult>>>,
    c: int,
    p: ProjectorId,
) -> bool {
    0 <= c < reports.len() && reports[c] is Some && reports[c]->Some_0@.contains_key(p)
}

/// The correspondences that were reported for projector `p`, by camera.
pub open spec fn reports_for(
    reports: Seq<Option<HashMap<ProjectorId, CameraResult>>>,
    p: ProjectorId,
) -> Map<CameraId, CameraResult> {
    Map::new(
        |c: CameraId| reported(reports, c as int, p),
        |c: CameraId| reports[c as int]->Some_0@[p],
    )
}

/// Collect the correspondences that were reported for projector `p`.
fn collect_for(reports: &Reports, p: ProjectorId) -> (cameras: BTreeMap<CameraId, CameraResult>)
    ensures
        cameras@ == reports_for(reports@, p),
{
    let mut cameras: BTreeMap<CameraId, CameraResult> = BTreeMap::new();
    let ghost all = reports_for(reports@, p);
    let mut c: usize = 0;
    while c < reports.len()
        invariant
            c <= reports.len(),
            all == reports_for(reports@, p),
            forall|d: CameraId| #[trigger]
                cameras@.contains_key(d) <==> d < c && all.contains_key(d),
            forall|d: CameraId| #[trigger] cameras@.contains_key(d) ==> cameras@[d] == all[d],
        decreases reports.len() - c,
    {
        if let Some(report) = &reports[c] {
            if let Some(found) = report.get(&p) {
                put(&mut cameras, c, *found);
            }
        }
        c += 1;
    }
    assert(cameras@ =~= all);
    cameras
}

/// The cameras of one projector in the result.
pub open spec fn result_for(
    reports: Seq<Option<HashMap<ProjectorId, CameraResult>>>,
    projector_count: usize,
    p: int,
) -> Map<CameraId, CameraResult> {
    if p < projector_count as u32 {
        reports_for(reports, p as u32)
    } else {
        Map::empty()
    }
}

/// `result` has one entry per projector, which holds what was reported for it.
pub open spec fn result_of(
    reports: Seq<Option<HashMap<ProjectorId, CameraResult>>>,
    projector_count: usize,
    result: Seq<CalibrationResultEntry>,
) -> bool {
    &&& result.len() == projector_count
    &&& forall|p: int|
        0 <= p < result.len() ==> (#[trigger] result[p]).cameras@ == result_for(
            reports,
            projector_count,
            p,
        )
}

// ---- the run ----

impl Calibrator {
    /// The result, where there is one, has an entry per projector.
    pub open spec fn wf(self) -> bool {
        self.result is Some ==> self.result->Some_0@.len() == self.projector_count
    }

    /// Only the schedule and the clock differ.
    pub open spec fn same_rig(self, other: Calibrator) -> bool {
        &&& self.width == other.width
        &&& self.height == other.height
        &&& self.projector_count == other.projector_count
        &&& self.result == other.result
    }

    /// Number of bits of a projector's identity.
    pub open spec fn id_bits(self) -> nat {
        let needed = binary_digits((self.projector_count - 1) as nat);
        if needed < 1 {
            1
        } else {
            needed
        }
    }

    /// Number of Gray-code bits of a run.
    pub open spec fn run_bits(self) -> nat {
        self.id_bits() + binary_digits(self.width as nat) + binary_digits(self.height as nat)
    }

    /// A rig at rest.
    pub fn new(width: u32, height: u32, projector_count: usize) -> (r: Calibrator)
        ensures
            r.wf(),
            r.width == width,
            r.height == height,
            r.projector_count == projector_count,
            !r.started,
            r.client_timestamps@ == Seq::<u32>::empty(),
            r.result is None,
    {
        Calibrator {
            width,
            height,
            projector_count,
            started: false,
            client_timestamps: VecDeque::new(),
            result: None,
        }
    }

    /// Bit width of the projector ID code.
    pub fn projector_id_bit_width(&self) -> (r: u32)
        requires
            self.projector_count > 0,
        ensures
            r == self.id_bits(),
            1 <= r <= 64,
    {
        let needed: u32 = bit_length((self.projector_count - 1) as u64);
        if needed < 1 {
            1
        } else {
            needed
        }
    }

    /// Number of Gray-code patterns along the X axis.
    pub fn graycode_x_count(&self) -> (r: u32)
        ensures
            r == binary_digits(self.width as nat),
            r <= 64,
    {
        bit_length(self.width as u64)
    }

    /// Number of Gray-code patterns along the Y axis.
    pub fn graycode_y_count(&self) -> (r: u32)
        ensures
            r == binary_digits(self.height as nat),
            r <= 64,
    {
        bit_length(self.height as u64)
    }

    /// Arm the run: from the measured round trips, compute the host's own
    /// schedule (`client_timestamps`), which times the projection.
    pub fn set_timestamps(
        &mut self,
        rtts: &Vec<Option<u32>>,
        start_delay: u32,
        interval: u32,
        area_calculation_interval: u32,
    ) -> (r: Result<RoundTrips, CalibrationError>)
        requires
            rtts@.len() > 0,
            all_answered(rtts@) ==> old(self).projector_count > 0,
            all_answered(rtts@) ==> forall|i: int|
                0 <= i < rtts@.len() ==> run_fits(
                    (#[trigger] rtts@[i])->Some_0 + start_delay,
                    interval as int,
                    area_calculation_interval as int,
                    frame_count(old(self).run_bits() as int, true),
                ),
        ensures
            final(self).same_rig(*old(self)),
            all_answered(rtts@) <==> r is Ok,
            r is Err ==> r->Err_0 == CalibrationError::RttFailed && *final(self) == *old(self),
            r is Ok ==> {
                let trips = r->Ok_0;
                &&& trips.each@.len() == rtts@.len()
                &&& forall|i: int| 0 <= i < rtts@.len() ==> rtts@[i] == Some(#[trigger] trips.each@[i])
                &&& largest(trips.each@, trips.longest)
                &&& final(self).started
                &&& final(self).client_timestamps@ == run_schedule(
                    trips.longest + start_delay,
                    interval as int,
                    area_calculation_interval as int,
                    frame_count(old(self).run_bits() as int, true),
                )
            },
    {
        let trips = match gather_round_trips(rtts) {
            Some(trips) => trips,
            None => {
                return Err(CalibrationError::RttFailed);
            },
        };
        let id_bits: u32 = self.projector_id_bit_width();
        let x_count: u32 = self.graycode_x_count();
        let y_count: u32 = self.graycode_y_count();
        proof {
            let k = choose|k: int| 0 <= k < trips.each@.len() && trips.each@[k] == trips.longest;
            assert(rtts@[k] == Some(trips.each@[k]));
            crate::schedule::law_starts_before_end(
                trips.longest + start_delay,
                interval as int,
                area_calculation_interval as int,
                frame_count(self.run_bits() as int, true),
            );
        }
        let times = generate_timestamps(
            id_bits,
            x_count,
            y_count,
            trips.longest + start_delay,
            interval,
            area_calculation_interval,
            true,
        );
        let mut queue: VecDeque<u32> = VecDeque::new();
        let mut i: usize = 0;
        while i < times.len()
            invariant
                i <= times.len(),
                queue@ =~= times@.take(i as int),
            decreases times.len() - i,
        {
            queue.push_back(times[i]);
            i += 1;
        }
        assert(times@.take(i as int) =~= times@);
        self.client_timestamps = queue;
        self.started = true;
        Ok(trips)
    }

    /// The capture schedule of one camera, `elapsed_ms` after the run was armed.
    pub fn camera_timestamps(
        &self,
        trips: &RoundTrips,
        camera: usize,
        start_delay: u32,
        capture_delay: u32,
        elapsed_ms: u128,
        interval: u32,
        area_calculation_interval: u32,
    ) -> (times: Vec<u32>)
        requires
            self.projector_count > 0,
            camera < trips.each@.len(),
            trips.longest + start_delay + capture_delay <= u32::MAX,
            camera_start(
                trips.longest,
                start_delay,
                capture_delay,
                trips.each@[camera as int],
                elapsed_ms,
            ) >= 0,
            run_fits(
                camera_start(
                    trips.longest,
                    start_delay,
                    capture_delay,
                    trips.each@[camera as int],
                    elapsed_ms,
                ),
                interval as int,
                area_calculation_interval as int,
                frame_count(self.run_bits() as int, false),
            ),
        ensures
            times@ == run_schedule(
                camera_start(
                    trips.longest,
                    start_delay,
                    capture_delay,
                    trips.each@[camera as int],
                    elapsed_ms,
                ),
                interval as int,
                area_calculation_interval as int,
                frame_count(self.run_bits() as int, false),
            ),
    {
        let start: u32 = camera_start_delay(
            trips.longest,
            start_delay,
            capture_delay,
            trips.each[camera],
            elapsed_ms,
        );
        generate_timestamps(
            self.projector_id_bit_width(),
            self.graycode_x_count(),
            self.graycode_y_count(),
            start,
            interval,
            area_calculation_interval,
            false,
        )
    }

    /// Take the next time off the host's schedule.
    fn next_time(&mut self) -> (t: u32)
        requires
            old(self).client_timestamps@.len() > 0,
        ensures
            t == old(self).client_timestamps@[0],
            final(self).client_timestamps@ == old(self).client_timestamps@.skip(1),
            final(self).same_rig(*old(self)),
            final(self).started == old(self).started,
    {
        let t: u32 = self.client_timestamps.pop_front().unwrap();
        assert(self.client_timestamps@ =~= old(self).client_timestamps@.skip(1));
        t
    }

    /// The steps that locate each projector in the camera image.
    pub fn process_position(&mut self) -> (r: Result<Vec<Step>, CalibrationError>)
        requires
            old(self).started ==> old(self).client_timestamps@.len() >= 2,
        ensures
            final(self).same_rig(*old(self)),
            final(self).started == old(self).started,
            r is Ok <==> old(self).started,
            r is Err ==> r->Err_0 == CalibrationError::NotStarted && *final(self) == *old(self),
            r is Ok ==> r->Ok_0@ == position_steps(
                old(self).client_timestamps@,
                old(self).projector_count as int,
            ) && final(self).client_timestamps@ == old(self).client_timestamps@.skip(2),
    {
        if !self.started {
            return Err(CalibrationError::NotStarted);
        }
        let ghost times = self.client_timestamps@;
        let mut steps: Vec<Step> = Vec::new();
        steps.push(Step::WaitUntil(self.next_time()));
        show_on_all(&mut steps, Frame::White, self.projector_count);
        steps.push(Step::WaitUntil(self.next_time()));
        show_on_all(&mut steps, Frame::Black, self.projector_count);
        assert(steps@ =~= position_steps(times, self.projector_count as int));
        assert(self.client_timestamps@ =~= times.skip(2));
        Ok(steps)
    }

    /// The steps that project the projector IDs.
    pub fn process_id(&mut self) -> (r: Result<Vec<Step>, CalibrationError>)
        requires
            old(self).started ==> old(self).projector_count > 0
                && old(self).client_timestamps@.len() >= 2 * old(self).id_bits(),
        ensures
            final(self).same_rig(*old(self)),
            final(self).started == old(self).started,
            r is Ok <==> old(self).started,
            r is Err ==> r->Err_0 == CalibrationError::NotStarted && *final(self) == *old(self),
            r is Ok ==> r->Ok_0@ == id_steps(
                old(self).client_timestamps@,
                old(self).projector_count as int,
                old(self).id_bits() as int,
            ) && final(self).client_timestamps@ == old(self).client_timestamps@.skip(
                2 * old(self).id_bits() as int,
            ),
    {
        if !self.started {
            return Err(CalibrationError::NotStarted);
        }
        let ghost times = self.client_timestamps@;
        let count: usize = self.projector_count;
        let width: u32 = self.projector_id_bit_width();
        let mut steps: Vec<Step> = Vec::new();
        let mut bits: u32 = width;
        assert(times.skip(0) =~= times);
        assert(steps@ + id_steps(times, count as int, width as int) =~= id_steps(
            times,
            count as int,
            width as int,
        ));
        while bits > 0
            invariant
                bits <= width <= 64,
                times.len() >= 2 * width,
                self.same_rig(*old(self)),
                self.started == old(self).started,
                count == self.projector_count,
                self.client_timestamps@ == times.skip(2 * (width - bits)),
                steps@ + id_steps(self.client_timestamps@, count as int, bits as int) == id_steps(
                    times,
                    count as int,
                    width as int,
                ),
            decreases bits,
        {
            let ghost before = steps@;
            let ghost rest = self.client_timestamps@;
            steps.push(Step::WaitUntil(self.next_time()));
            show_id_bit(&mut steps, count, bits - 1, false);
            steps.push(Step::WaitUntil(self.next_time()));
            show_id_bit(&mut steps, count, bits - 1, true);
            bits -= 1;
            proof {
                assert(self.client_timestamps@ =~= rest.skip(2));
                assert(rest.skip(2) =~= times.skip(2 * (width - bits)));
                assert(steps@ + id_steps(rest.skip(2), count as int, bits as int) =~= before
                    + id_steps(rest, count as int, bits + 1));
            }
        }
        assert(steps@ =~= id_steps(times, count as int, width as int));
        Ok(steps)
    }

    /// The steps that project the `codes` Gray-code patterns.
    pub fn process_graycode(&mut self, codes: usize) -> (r: Result<Vec<Step>, CalibrationError>)
        requires
            old(self).started ==> old(self).client_timestamps@.len() >= codes + 1,
        ensures
            final(self).same_rig(*old(self)),
            final(self).started == old(self).started,
            r is Ok <==> old(self).started,
            r is Err ==> r->Err_0 == CalibrationError::NotStarted && *final(self) == *old(self),
            r is Ok ==> r->Ok_0@ == graycode_steps(
                old(self).client_timestamps@,
                old(self).projector_count as int,
                0,
                codes as int,
            ) && final(self).client_timestamps@ == old(self).client_timestamps@.skip(codes + 1),
    {
        if !self.started {
            return Err(CalibrationError::NotStarted);
        }
        let ghost times = self.client_timestamps@;
        let count: usize = self.projector_count;
        let mut steps: Vec<Step> = Vec::new();
        let mut code: usize = 0;
        assert(times.skip(0) =~= times);
        assert(steps@ + graycode_steps(times, count as int, 0, codes as int) =~= graycode_steps(
            times,
            count as int,
            0,
            codes as int,
        ));
        while code < codes
            invariant
                code <= codes,
                times.len() >= codes + 1,
                self.same_rig(*old(self)),
                self.started == old(self).started,
                count == self.projector_count,
                self.client_timestamps@ == times.skip(code as int),
                steps@ + graycode_steps(
                    self.client_timestamps@,
                    count as int,
                    code as int,
                    codes as int,
                ) == graycode_steps(times, count as int, 0, codes as int),
            decreases codes - code,
        {
            let ghost before = steps@;
            let ghost rest = self.client_timestamps@;
            steps.push(Step::WaitUntil(self.next_time()));
            show_on_all(&mut steps, Frame::Graycode(code), count);
            proof {
                assert(rest.skip(1) =~= times.skip(code + 1));
                assert(steps@ + graycode_steps(rest.skip(1), count as int, code as int + 1, codes as int)
                    =~= before + graycode_steps(rest, count as int, code as int, codes as int));
            }
            code += 1;
        }
        let ghost rest = self.client_timestamps@;
        steps.push(Step::WaitUntil(self.next_time()));
        assert(rest.skip(1) =~= times.skip(codes + 1));
        assert(steps@ =~= graycode_steps(times, count as int, 0, codes as int));
        Ok(steps)
    }

    /// Arm a run and lay out all its steps. The schedules of the cameras
    /// ([`Calibrator::camera_timestamps`]) are to be sent before the steps are
    /// carried out, and the result is to be collected after
    /// ([`Calibrator::finish`]).
    pub fn calibrate(
        &mut self,
        rtts: &Vec<Option<u32>>,
        codes: usize,
        start_delay: u32,
        interval: u32,
        area_calculation_interval: u32,
    ) -> (r: Result<(RoundTrips, Vec<Step>), CalibrationError>)
        requires
            rtts@.len() > 0,
            all_answered(rtts@) ==> old(self).projector_count > 0,
            all_answered(rtts@) ==> forall|i: int|
                0 <= i < rtts@.len() ==> run_fits(
                    (#[trigger] rtts@[i])->Some_0 + start_delay,
                    interval as int,
                    area_calculation_interval as int,
                    frame_count(old(self).run_bits() as int, true),
                ),
            all_answered(rtts@) ==> codes <= 2 * (binary_digits(old(self).width as nat) + binary_digits(
                old(self).height as nat,
            )),
        ensures
            final(self).same_rig(*old(self)),
            all_answered(rtts@) <==> r is Ok,
            r is Err ==> r->Err_0 == CalibrationError::RttFailed && *final(self) == *old(self),
            r is Ok ==> {
                let trips = r->Ok_0.0;
                let times = run_schedule(
                    trips.longest + start_delay,
                    interval as int,
                    area_calculation_interval as int,
                    frame_count(old(self).run_bits() as int, true),
                );
                let id_bits = old(self).id_bits() as int;
                &&& trips.each@.len() == rtts@.len()
                &&& forall|i: int| 0 <= i < rtts@.len() ==> rtts@[i] == Some(#[trigger] trips.each@[i])
                &&& largest(trips.each@, trips.longest)
                &&& final(self).started
                &&& r->Ok_0.1@ == run_steps(
                    times,
                    old(self).projector_count as int,
                    id_bits,
                    codes as int,
                )
                &&& final(self).client_timestamps@ == times.skip(2 + 2 * id_bits + codes + 1)
            },
    {
        let trips = match self.set_timestamps(
            rtts,
            start_delay,
            interval,
            area_calculation_interval,
        ) {
            Ok(trips) => trips,
            Err(e) => {
                return Err(e);
            },
        };
        let ghost times = self.client_timestamps@;
        let ghost count = self.projector_count as int;
        let ghost id_bits = self.id_bits() as int;
        let position = self.process_position();
        let id = self.process_id();
        let graycode = self.process_graycode(codes);
        match (position, id, graycode) {
            (Ok(mut steps), Ok(mut id_part), Ok(mut graycode_part)) => {
                steps.append(&mut id_part);
                steps.append(&mut graycode_part);
                proof {
                    assert(times.skip(2).skip(2 * id_bits) =~= times.skip(2 + 2 * id_bits));
                    assert(steps@ =~= run_steps(times, count, id_bits, codes as int));
                    assert(times.skip(2 + 2 * id_bits).skip(codes + 1) =~= times.skip(
                        2 + 2 * id_bits + codes + 1,
                    ));
                }
                Ok((trips, steps))
            },
            (Err(e), _, _) => Err(e),
            (_, Err(e), _) => Err(e),
            (_, _, Err(e)) => Err(e),
        }
    }

    /// Put the cameras' reports together: per projector, the correspondence that
    /// each camera reported. Reports for projectors that do not exist are dropped.
    pub fn get_result(&self, reports: &Reports) -> (r: Result<CalibrationResult, CalibrationError>)
        ensures
            !self.started ==> r == Err::<CalibrationResult, CalibrationError>(
                CalibrationError::NotStarted,
            ),
            self.started && self.client_timestamps@.len() > 0 ==> r == Err::<
                CalibrationResult,
                CalibrationError,
            >(CalibrationError::NotFinished),
            self.started && self.client_timestamps@.len() == 0 ==> r is Ok && result_of(
                reports@,
                self.projector_count,
                r->Ok_0@,
            ),
    {
        if !self.started {
            return Err(CalibrationError::NotStarted);
        }
        if self.client_timestamps.len() > 0 {
            return Err(CalibrationError::NotFinished);
        }
        let limit: u32 = #[verifier::truncate] (self.projector_count as u32);
        let mut result: CalibrationResult = Vec::new();
        let mut p: usize = 0;
        while p < self.projector_count
            invariant
                p <= self.projector_count,
                limit == self.projector_count as u32,
                result@.len() == p,
                forall|q: int|
                    0 <= q < p ==> (#[trigger] result@[q]).cameras@ == result_for(
                        reports@,
                        self.projector_count,
                        q,
                    ),
            decreases self.projector_count - p,
        {
            let cameras = if (p as u64) < limit as u64 {
                collect_for(reports, p as u32)
            } else {
                BTreeMap::new()
            };
            result.push(CalibrationResultEntry { cameras });
            p += 1;
        }
        Ok(result)
    }

    /// End the run: keep the result of the cameras' reports.
    pub fn finish(&mut self, reports: &Reports) -> (r: Result<(), CalibrationError>)
        requires
            old(self).wf(),
        ensures
            final(self).wf(),
            final(self).width == old(self).width,
            final(self).height == old(self).height,
            final(self).projector_count == old(self).projector_count,
            final(self).started == old(self).started,
            final(self).client_timestamps@ == old(self).client_timestamps@,
            !old(self).started <==> r == Err::<(), CalibrationError>(CalibrationError::NotStarted),
            old(self).started && old(self).client_timestamps@.len() > 0 <==> r == Err::<
                (),
                CalibrationError,
            >(CalibrationError::NotFinished),
            r is Ok <==> old(self).started && old(self).client_timestamps@.len() == 0,
            r is Err ==> *final(self) == *old(self),
            r is Ok ==> final(self).result is Some && result_of(
                reports@,
                old(self).projector_count,
                final(self).result->Some_0@,
            ),
    {
        match self.get_result(reports) {
            Ok(result) => {
                self.result = Some(result);
                Ok(())
            },
            Err(e) => Err(e),
        }
    }
}

// ---- laws ----

/// The three phases take exactly the times of the host's schedule when the
/// pattern generator makes two images per Gray-code bit of the projector's
/// width and height, and only then: with any other number of images the run
/// cannot be finished.
pub proof fn law_run_uses_up_schedule(run: Calibrator, codes: nat)
    ensures
        frame_count(run.run_bits() as int, true) == 2 + 2 * run.id_bits() + (codes + 1) <==> codes == 2
            * (binary_digits(run.width as nat) + binary_digits(run.height as nat)),
{
}

/// The ID code is wide enough to number all projectors and, beyond the one bit
/// that it always has, no wider.
pub proof fn law_id_width_fits(run: Calibrator)
    requires
        run.projector_count > 0,
    ensures
        run.projector_count <= pow2(run.id_bits()),
        run.id_bits() > 1 ==> run.projector_count > pow2((run.id_bits() - 1) as nat),
{
    let last = (run.projector_count - 1) as nat;
    crate::bits::lemma_binary_digits(last, run.id_bits());
    if run.id_bits() > 1 {
        crate::bits::lemma_binary_digits(last, (run.id_bits() - 1) as nat);
    }
}

/// The Gray code along an axis has enough bits for every pixel of a projector
/// that is `extent` pixels wide or high, and for the pixel behind the last.
pub proof fn law_graycode_count_fits(extent: u32, pixel: nat)
    requires
        pixel <= extent,
    ensures
        pixel < pow2(binary_digits(extent as nat)),
        extent > 0 ==> pow2((binary_digits(extent as nat) - 1) as nat) <= extent,
{
    let digits = binary_digits(extent as nat);
    crate::bits::lemma_binary_digits(extent as nat, digits);
    if extent > 0 {
        crate::bits::lemma_binary_digits(extent as nat, (digits - 1) as nat);
    }
}

/// Two projectors differ in some frame of the ID code, so a camera that decodes
/// the code knows which projector it sees.
pub proof fn law_ids_tell_projectors_apart(run: Calibrator, p: nat, q: nat)
    requires
        p < run.projector_count,
        q < run.projector_count,
        p != q,
    ensures
        exists|i: nat|
            i < run.id_bits() && #[trigger] id_frame(p as int, i as int, false) != id_frame(
                q as int,
                i as int,
                false,
            ),
{
    law_id_width_fits(run);
    if forall|i: nat|
        i < run.id_bits() ==> #[trigger] id_frame(p as int, i as int, false) == id_frame(
            q as int,
            i as int,
            false,
        ) {
        assert forall|i: nat| i < run.id_bits() implies #[trigger] binary_digit(p, i)
            == binary_digit(q, i) by {
            assert(id_frame(p as int, i as int, false) == id_frame(q as int, i as int, false));
        }
        crate::bits::lemma_digits_identify(p, q, run.id_bits());
    }
}

/// The identity that the frames of a projector show: the sum of the powers of two
/// whose frames are white.
pub open spec fn shown_id(p: int, bits: nat) -> nat
    decreases bits,
{
    if bits == 0 {
        0
    } else {
        let i = (bits - 1) as nat;
        shown_id(p, i) + if id_frame(p, i as int, false) == Frame::White {
            pow2(i)
        } else {
            0
        }
    }
}

/// The frames of every projector show its own identity.
pub proof fn law_frames_show_identity(run: Calibrator, p: nat)
    requires
        p < run.projector_count,
    ensures
        shown_id(p as int, run.id_bits()) == p,
{
    law_id_width_fits(run);
    lemma_shown_id(p, run.id_bits());
    vstd::arithmetic::div_mod::lemma_small_mod(p, pow2(run.id_bits()));
}

/// The frames of the lowest bits show the remainder by a power of two.
proof fn lemma_shown_id(p: nat, bits: nat)
    ensures
        shown_id(p as int, bits) == p % pow2(bits),
    decreases bits,
{
    vstd::arithmetic::power2::lemma_pow2_pos(bits);
    if bits == 0 {
        vstd::arithmetic::power2::lemma2_to64();
    } else {
        let i = (bits - 1) as nat;
        lemma_shown_id(p, i);
        vstd::arithmetic::power2::lemma_pow2_pos(i);
        vstd::arithmetic::power2::lemma_pow2_unfold(bits);
        vstd::arithmetic::div_mod::lemma_mod_breakdown(p as int, pow2(i) as int, 2);
        let bit = binary_digit(p, i);
        assert(pow2(i) * bit == if bit == 1 {
            pow2(i)
        } else {
            0
        }) by (nonlinear_arith)
            requires
                bit == 0 || bit == 1,
        ;
        assert(pow2(i) * 2 == pow2(bits));
    }
}

/// The second frame of every ID bit is the inverse of the first.
pub proof fn law_id_frames_inverted(id: int, i: int)
    ensures
        id_frame(id, i, false) == Frame::White <==> id_frame(id, i, true) == Frame::Black,
        id_frame(id, i, false) == Frame::Black <==> id_frame(id, i, true) == Frame::White,
{
}

// ---- what a projector goes through ----

/// The times that are waited for, in order.
pub open spec fn waits(steps: Seq<Step>) -> Seq<u32>
    decreases steps.len(),
{
    if steps.len() == 0 {
        seq![]
    } else {
        match steps.last() {
            Step::WaitUntil(time) => waits(steps.drop_last()).push(time),
            _ => waits(steps.drop_last()),
        }
    }
}

/// What projector `p` goes through, in order: the frames that are put on its window,
/// and the repaints (`None`), each with the number of waits before it.
pub open spec fn trace(steps: Seq<Step>, p: usize) -> Seq<(nat, Option<Frame>)>
    decreases steps.len(),
{
    if steps.len() == 0 {
        seq![]
    } else {
        let before = steps.drop_last();
        match steps.last() {
            Step::WaitUntil(_) => trace(before, p),
            Step::Show { projector, frame } => if projector == p {
                trace(before, p).push((waits(before).len(), Some(frame)))
            } else {
                trace(before, p)
            },
            Step::Repaint => trace(before, p).push((waits(before).len(), None)),
        }
    }
}

/// The same trace, `n` waits later.
pub open spec fn later(trace: Seq<(nat, Option<Frame>)>, n: nat) -> Seq<(nat, Option<Frame>)> {
    trace.map_values(|e: (nat, Option<Frame>)| (e.0 + n, e.1))
}

/// Steps that follow others wait and show after them.
proof fn lemma_trace_concat(a: Seq<Step>, b: Seq<Step>, p: usize)
    ensures
        waits(a + b) == waits(a) + waits(b),
        trace(a + b, p) == trace(a, p) + later(trace(b, p), waits(a).len()),
    decreases b.len(),
{
    if b.len() == 0 {
        assert(a + b =~= a);
        assert(waits(a) + waits(b) =~= waits(a));
        assert(trace(a, p) + later(trace(b, p), waits(a).len()) =~= trace(a, p));
    } else {
        lemma_trace_concat(a, b.drop_last(), p);
        assert((a + b).drop_last() =~= a + b.drop_last());
        assert((a + b).last() == b.last());
        assert(waits(a + b) =~= waits(a) + waits(b));
        assert(trace(a + b, p) =~= trace(a, p) + later(trace(b, p), waits(a).len()));
    }
}

/// One wait.
proof fn lemma_trace_wait(t: u32, p: usize)
    ensures
        waits(seq![Step::WaitUntil(t)]) == seq![t],
        trace(seq![Step::WaitUntil(t)], p) == Seq::<(nat, Option<Frame>)>::empty(),
{
    let steps = seq![Step::WaitUntil(t)];
    assert(steps.drop_last() =~= seq![]);
    reveal_with_fuel(waits, 2);
    reveal_with_fuel(trace, 2);
    assert(waits(steps) =~= seq![t]);
}

/// Frames on the projectors from 0 up, one each.
proof fn lemma_trace_shows(steps: Seq<Step>, frames: Seq<Frame>, p: usize)
    requires
        steps.len() == frames.len(),
        steps.len() <= usize::MAX + 1,
        forall|q: int|
            0 <= q < steps.len() ==> #[trigger] steps[q] == (Step::Show {
                projector: q as usize,
                frame: frames[q],
            }),
    ensures
        waits(steps) == Seq::<u32>::empty(),
        trace(steps, p) == if p < steps.len() {
            seq![(0nat, Some(frames[p as int]))]
        } else {
            seq![]
        },
    decreases steps.len(),
{
    if steps.len() > 0 {
        let n = steps.len() - 1;
        lemma_trace_shows(steps.drop_last(), frames.drop_last(), p);
        assert(steps.last() == steps[n]);
        assert(n as usize == n);
        assert(trace(steps, p) =~= if p < steps.len() {
            seq![(0nat, Some(frames[p as int]))]
        } else {
            seq![]
        });
    }
}

/// The same frame on all projectors, then a repaint.
proof fn lemma_trace_on_all(frame: Frame, count: usize, p: usize)
    requires
        p < count,
    ensures
        waits(shown_on_all(frame, count as int)) == Seq::<u32>::empty(),
        trace(shown_on_all(frame, count as int), p) == seq![(0nat, Some(frame)), (0nat, None)],
{
    let steps = shown_on_all(frame, count as int);
    let shows = shown_on(frame, count as int);
    lemma_trace_shows(shows, Seq::new(count as nat, |q: int| frame), p);
    assert(steps.drop_last() =~= shows);
    assert(trace(steps, p) =~= seq![(0nat, Some(frame)), (0nat, None)]);
}

/// The trace of a wait and a frame on all projectors.
proof fn lemma_trace_slot(t: u32, frame: Frame, count: usize, p: usize)
    requires
        p < count,
    ensures
        waits(seq![Step::WaitUntil(t)] + shown_on_all(frame, count as int)) == seq![t],
        trace(seq![Step::WaitUntil(t)] + shown_on_all(frame, count as int), p) == seq![
            (1nat, Some(frame)),
            (1nat, None),
        ],
{
    lemma_trace_wait(t, p);
    lemma_trace_on_all(frame, count, p);
    lemma_trace_concat(seq![Step::WaitUntil(t)], shown_on_all(frame, count as int), p);
    assert(waits(seq![Step::WaitUntil(t)] + shown_on_all(frame, count as int)) =~= seq![t]);
    assert(trace(seq![Step::WaitUntil(t)] + shown_on_all(frame, count as int), p) =~= seq![
        (1nat, Some(frame)),
        (1nat, None),
    ]);
}

/// The trace of a wait and an ID bit on all projectors.
proof fn lemma_trace_id_slot(t: u32, count: usize, i: int, inverted: bool, p: usize)
    requires
        p < count,
    ensures
        waits(seq![Step::WaitUntil(t)] + id_round(count as int, i, inverted)) == seq![t],
        trace(seq![Step::WaitUntil(t)] + id_round(count as int, i, inverted), p) == seq![
            (1nat, Some(id_frame(p as int, i, inverted))),
        ],
{
    let round = id_round(count as int, i, inverted);
    lemma_trace_wait(t, p);
    lemma_trace_shows(round, Seq::new(count as nat, |q: int| id_frame(q, i, inverted)), p);
    lemma_trace_concat(seq![Step::WaitUntil(t)], round, p);
    assert(waits(seq![Step::WaitUntil(t)] + round) =~= seq![t]);
    assert(trace(seq![Step::WaitUntil(t)] + round, p) =~= seq![
        (1nat, Some(id_frame(p as int, i, inverted))),
    ]);
}

/// The trace of the position phase.
proof fn lemma_trace_position(times: Seq<u32>, count: usize, p: usize)
    requires
        p < count,
        times.len() >= 2,
    ensures
        waits(position_steps(times, count as int)) == times.take(2),
        trace(position_steps(times, count as int), p) == seq![
            (1nat, Some(Frame::White)),
            (1nat, None),
            (2nat, Some(Frame::Black)),
            (2nat, None),
        ],
{
    let a = seq![Step::WaitUntil(times[0])] + shown_on_all(Frame::White, count as int);
    let b = seq![Step::WaitUntil(times[1])] + shown_on_all(Frame::Black, count as int);
    lemma_trace_slot(times[0], Frame::White, count, p);
    lemma_trace_slot(times[1], Frame::Black, count, p);
    lemma_trace_concat(a, b, p);
    assert(position_steps(times, count as int) =~= a + b);
    assert(waits(a + b) =~= times.take(2));
    assert(trace(a + b, p) =~= seq![
        (1nat, Some(Frame::White)),
        (1nat, None),
        (2nat, Some(Frame::Black)),
        (2nat, None),
    ]);
}

/// The trace of the ID phase.
proof fn lemma_trace_id(times: Seq<u32>, count: usize, bits: nat, p: usize)
    requires
        p < count,
        times.len() >= 2 * bits,
    ensures
        waits(id_steps(times, count as int, bits as int)) == times.take(2 * bits as int),
        trace(id_steps(times, count as int, bits as int), p) == Seq::new(
            2 * bits,
            |j: int|
                ((j + 1) as nat, Some(id_frame(p as int, bits - 1 - j / 2, j % 2 == 1))),
        ),
    decreases bits,
{
    let steps = id_steps(times, count as int, bits as int);
    let expected = Seq::new(
        2 * bits,
        |j: int| ((j + 1) as nat, Some(id_frame(p as int, bits - 1 - j / 2, j % 2 == 1))),
    );
    if bits == 0 {
        assert(waits(steps) =~= times.take(0));
        assert(trace(steps, p) =~= expected);
    } else {
        let fewer = (bits - 1) as nat;
        let a = seq![Step::WaitUntil(times[0])] + id_round(count as int, bits - 1, false);
        let b = seq![Step::WaitUntil(times[1])] + id_round(count as int, bits - 1, true);
        let c = id_steps(times.skip(2), count as int, fewer as int);
        lemma_trace_id_slot(times[0], count, bits - 1, false, p);
        lemma_trace_id_slot(times[1], count, bits - 1, true, p);
        lemma_trace_id(times.skip(2), count, fewer, p);
        lemma_trace_concat(a, b, p);
        lemma_trace_concat(a + b, c, p);
        assert(steps =~= a + b + c);
        assert(waits(steps) =~= times.take(2 * bits as int));
        let rest = trace(c, p);
        assert forall|j: int| 0 <= j < 2 * bits implies #[trigger] trace(steps, p)[j] == expected[j] by {
            if j >= 2 {
                assert(rest[j - 2] == ((j - 1) as nat, Some(
                    id_frame(p as int, fewer - 1 - (j - 2) / 2, (j - 2) % 2 == 1),
                )));
                assert((j - 2) / 2 == j / 2 - 1 && (j - 2) % 2 == j % 2);
            }
        }
        assert(trace(steps, p) =~= expected);
    }
}

/// The trace of the Gray-code phase.
proof fn lemma_trace_graycode(times: Seq<u32>, count: usize, code: nat, codes: nat, p: usize)
    requires
        p < count,
        code <= codes,
        times.len() >= codes - code + 1,
    ensures
        waits(graycode_steps(times, count as int, code as int, codes as int)) == times.take(
            codes - code + 1,
        ),
        trace(graycode_steps(times, count as int, code as int, codes as int), p) == Seq::new(
            (2 * (codes - code)) as nat,
            |j: int|
                (
                    (j / 2 + 1) as nat,
                    if j % 2 == 0 {
                        Some(Frame::Graycode((code + j / 2) as usize))
                    } else {
                        None
                    },
                ),
        ),
    decreases codes - code,
{
    let steps = graycode_steps(times, count as int, code as int, codes as int);
    let expected = Seq::new(
        (2 * (codes - code)) as nat,
        |j: int|
            (
                (j / 2 + 1) as nat,
                if j % 2 == 0 {
                    Some(Frame::Graycode((code + j / 2) as usize))
                } else {
                    None
                },
            ),
    );
    if code == codes {
        lemma_trace_wait(times[0], p);
        assert(waits(steps) =~= times.take(1));
        assert(trace(steps, p) =~= expected);
    } else {
        let a = seq![Step::WaitUntil(times[0])] + shown_on_all(
            Frame::Graycode(code as usize),
            count as int,
        );
        let b = graycode_steps(times.skip(1), count as int, code as int + 1, codes as int);
        lemma_trace_slot(times[0], Frame::Graycode(code as usize), count, p);
        lemma_trace_graycode(times.skip(1), count, code + 1, codes, p);
        lemma_trace_concat(a, b, p);
        assert(steps =~= a + b);
        assert(waits(steps) =~= times.take(codes - code + 1));
        let rest = trace(b, p);
        assert forall|j: int| 0 <= j < 2 * (codes - code) implies #[trigger] trace(steps, p)[j]
            == expected[j] by {
            if j >= 2 {
                assert(trace(steps, p)[j] == later(rest, 1)[j - 2]);
                assert((j - 2) / 2 == j / 2 - 1 && (j - 2) % 2 == j % 2);
            }
        }
        assert(trace(steps, p) =~= expected);
    }
}

/// The trace of a whole run.
proof fn lemma_trace_run(times: Seq<u32>, count: usize, bits: nat, codes: nat, p: usize)
    requires
        p < count,
        times.len() >= 2 + 2 * bits + codes + 1,
    ensures
        ({
            let steps = run_steps(times, count as int, bits as int, codes as int);
            let seen = trace(steps, p);
            &&& waits(steps) == times.take((2 + 2 * bits + codes + 1) as int)
            &&& seen.len() == 4 + 2 * bits + 2 * codes
            &&& seen[0] == (1nat, Some(Frame::White)) && seen[1] == (1nat, None::<Frame>)
            &&& seen[2] == (2nat, Some(Frame::Black)) && seen[3] == (2nat, None::<Frame>)
            &&& forall|j: int|
                0 <= j < 2 * bits ==> #[trigger] seen[4 + j] == ((3 + j) as nat, Some(
                    id_frame(p as int, bits - 1 - j / 2, j % 2 == 1),
                ))
            &&& forall|k: int|
                0 <= k < codes ==> #[trigger] seen[4 + 2 * bits + 2 * k] == (
                    (3 + 2 * bits + k) as nat,
                    Some(Frame::Graycode(k as usize)),
                ) && seen[4 + 2 * bits + 2 * k + 1] == ((3 + 2 * bits + k) as nat, None::<Frame>)
        }),
{
    let a = position_steps(times, count as int);
    let b = id_steps(times.skip(2), count as int, bits as int);
    let c = graycode_steps(times.skip((2 + 2 * bits) as int), count as int, 0, codes as int);
    lemma_trace_position(times, count, p);
    lemma_trace_id(times.skip(2), count, bits, p);
    lemma_trace_graycode(times.skip((2 + 2 * bits) as int), count, 0, codes, p);
    lemma_trace_concat(a, b, p);
    lemma_trace_concat(a + b, c, p);
    let steps = run_steps(times, count as int, bits as int, codes as int);
    assert(steps =~= a + b + c);
    assert(waits(steps) =~= times.take((2 + 2 * bits + codes + 1) as int));
    let seen = trace(steps, p);
    assert forall|j: int| 0 <= j < 2 * bits implies #[trigger] seen[4 + j] == ((3 + j) as nat, Some(
        id_frame(p as int, bits - 1 - j / 2, j % 2 == 1),
    )) by {
        assert(seen[4 + j] == later(trace(b, p), 2)[j]);
    }
    assert forall|k: int| 0 <= k < codes implies #[trigger] seen[4 + 2 * bits + 2 * k] == (
        (3 + 2 * bits + k) as nat,
        Some(Frame::Graycode(k as usize)),
    ) && seen[4 + 2 * bits + 2 * k + 1] == ((3 + 2 * bits + k) as nat, None::<Frame>) by {
        let rest = later(trace(c, p), (2 + 2 * bits) as nat);
        assert(seen[4 + 2 * bits + 2 * k] == rest[2 * k]);
        assert(seen[4 + 2 * bits + 2 * k + 1] == rest[2 * k + 1]);
        assert((2 * k) / 2 == k && (2 * k) % 2 == 0);
        assert((2 * k + 1) / 2 == k && (2 * k + 1) % 2 == 1);
    }
}

/// There is one width that fits.
proof fn lemma_width_unique(count: nat, a: nat, b: nat)
    requires
        a >= 1,
        b >= 1,
        count <= pow2(a),
        count <= pow2(b),
        a > 1 ==> count > pow2((a - 1) as nat),
        b > 1 ==> count > pow2((b - 1) as nat),
    ensures
        a == b,
{
    if a < b {
        lemma_pow2_grows(a, (b - 1) as nat);
    } else if b < a {
        lemma_pow2_grows(b, (a - 1) as nat);
    }
}

/// Powers of two grow.
proof fn lemma_pow2_grows(a: nat, b: nat)
    requires
        a <= b,
    ensures
        pow2(a) <= pow2(b),
{
    if a < b {
        vstd::arithmetic::power2::lemma_pow2_strictly_increases(a, b);
    }
}

/// In a run, every projector shows every frame in its own time slot, and nothing
/// else: between the first wait and the second white, between the second and the
/// third black; then, for the bits of its number from the highest to the lowest,
/// white for 1 and black for 0 and in the next slot the opposite; then each
/// Gray-code image in turn. White, black and the Gray-code images are repainted in
/// their slot. What is waited for are the times of the host's schedule, in order.
pub proof fn law_every_projector_shows_every_frame(
    run: &mut Calibrator,
    rtts: &Vec<Option<u32>>,
    codes: usize,
    start_delay: u32,
    interval: u32,
    area_calculation_interval: u32,
    r: Result<(RoundTrips, Vec<Step>), CalibrationError>,
    bits: nat,
    p: usize,
)
    requires
        call_ensures(
            Calibrator::calibrate,
            (run, rtts, codes, start_delay, interval, area_calculation_interval),
            r,
        ),
        r is Ok,
        p < old(run).projector_count,
        bits >= 1,
        old(run).projector_count <= pow2(bits),
        bits > 1 ==> old(run).projector_count > pow2((bits - 1) as nat),
        codes <= 2 * (binary_digits(old(run).width as nat) + binary_digits(old(run).height as nat)),
        interval <= area_calculation_interval,
        r->Ok_0.0.longest + start_delay + interval + area_calculation_interval + (2 * (bits
            + binary_digits(old(run).width as nat) + binary_digits(old(run).height as nat)) + 1)
            * interval <= u32::MAX,
    ensures
        ({
            let seen = trace(r->Ok_0.1@, p);
            &&& seen.len() == 4 + 2 * bits + 2 * codes
            &&& seen[0] == (1nat, Some(Frame::White)) && seen[1] == (1nat, None::<Frame>)
            &&& seen[2] == (2nat, Some(Frame::Black)) && seen[3] == (2nat, None::<Frame>)
            &&& forall|i: int|
                0 <= i < bits ==> {
                    let one = (p as nat / pow2((bits - 1 - i) as nat)) % 2 == 1;
                    &&& #[trigger] seen[4 + 2 * i] == ((3 + 2 * i) as nat, Some(
                        if one {
                            Frame::White
                        } else {
                            Frame::Black
                        },
                    ))
                    &&& seen[4 + 2 * i + 1] == ((3 + 2 * i + 1) as nat, Some(
                        if one {
                            Frame::Black
                        } else {
                            Frame::White
                        },
                    ))
                }
            &&& forall|k: int|
                0 <= k < codes ==> #[trigger] seen[4 + 2 * bits + 2 * k] == (
                    (3 + 2 * bits + k) as nat,
                    Some(Frame::Graycode(k as usize)),
                ) && seen[4 + 2 * bits + 2 * k + 1] == ((3 + 2 * bits + k) as nat, None::<Frame>)
        }),
        waits(r->Ok_0.1@).len() == 2 + 2 * bits + codes + 1,
        waits(r->Ok_0.1@)[0] == r->Ok_0.0.longest + start_delay,
        forall|i: int|
            0 <= i < 2 + 2 * bits + codes ==> #[trigger] waits(r->Ok_0.1@)[i + 1] == waits(
                r->Ok_0.1@,
            )[i] + if i == 1 {
                area_calculation_interval
            } else {
                interval
            },
{
    law_id_width_fits(*old(run));
    lemma_width_unique(old(run).projector_count as nat, bits, old(run).id_bits());
    let times = run_schedule(
        r->Ok_0.0.longest + start_delay,
        interval as int,
        area_calculation_interval as int,
        frame_count(old(run).run_bits() as int, true),
    );
    lemma_trace_run(times, old(run).projector_count, bits, codes as nat, p);
    let first = r->Ok_0.0.longest + start_delay;
    let n = frame_count(old(run).run_bits() as int, true);
    let w = waits(r->Ok_0.1@);
    assert forall|i: int| 0 <= i < 2 + 2 * bits + codes implies #[trigger] w[i + 1] == w[i] + if i == 1 {
        area_calculation_interval
    } else {
        interval
    } by {
        crate::schedule::law_frames_spaced(first, interval as int, area_calculation_interval as int, i);
        crate::schedule::law_frames_ascend(first, interval as int, area_calculation_interval as int, i + 1, n);
        crate::schedule::law_frames_ascend(first, interval as int, area_calculation_interval as int, i, n);
        assert(w[i] == times[i] && w[i + 1] == times[i + 1]);
    }
    crate::schedule::law_frames_ascend(first, interval as int, area_calculation_interval as int, 0, n);
    let seen = trace(r->Ok_0.1@, p);
    assert forall|i: int| 0 <= i < bits implies ({
        let one = (p as nat / pow2((bits - 1 - i) as nat)) % 2 == 1;
        &&& #[trigger] seen[4 + 2 * i] == ((3 + 2 * i) as nat, Some(
            if one {
                Frame::White
            } else {
                Frame::Black
            },
        ))
        &&& seen[4 + 2 * i + 1] == ((3 + 2 * i + 1) as nat, Some(
            if one {
                Frame::Black
            } else {
                Frame::White
            },
        ))
    }) by {
        assert((2 * i) / 2 == i && (2 * i) % 2 == 0);
        assert((2 * i + 1) / 2 == i && (2 * i + 1) % 2 == 1);
        assert(seen[4 + (2 * i)] == seen[4 + 2 * i]);
        assert(seen[4 + (2 * i + 1)] == seen[4 + 2 * i + 1]);
    }
}

/// The ID code has the fewest bits, but at least one, in which all projectors can be
/// numbered.
pub proof fn law_id_width_is_least(run: &Calibrator, r: u32)
    requires
        call_ensures(Calibrator::projector_id_bit_width, (run,), r),
        run.projector_count > 0,
    ensures
        r >= 1,
        run.projector_count <= pow2(r as nat),
        r > 1 ==> run.projector_count > pow2((r - 1) as nat),
{
    law_id_width_fits(*run);
}

/// The Gray code along either axis has the fewest bits in which the extent can be
/// written.
pub proof fn law_graycode_counts_are_least(run: &Calibrator, x: u32, y: u32)
    requires
        call_ensures(Calibrator::graycode_x_count, (run,), x),
        call_ensures(Calibrator::graycode_y_count, (run,), y),
    ensures
        run.width < pow2(x as nat),
        x > 0 ==> pow2((x - 1) as nat) <= run.width,
        run.height < pow2(y as nat),
        y > 0 ==> pow2((y - 1) as nat) <= run.height,
{
    crate::bits::lemma_binary_digits(run.width as nat, x as nat);
    crate::bits::lemma_binary_digits(run.height as nat, y as nat);
    if x > 0 {
        crate::bits::lemma_binary_digits(run.width as nat, (x - 1) as nat);
    }
    if y > 0 {
        crate::bits::lemma_binary_digits(run.height as nat, (y - 1) as nat);
    }
}

/// The result of a finished run has an entry per projector, and a camera is in the
/// entry of a projector exactly if it answered and reported that projector, with
/// just what it reported.
pub proof fn law_result_is_what_was_reported(
    run: &Calibrator,
    reports: &Reports,
    r: Result<CalibrationResult, CalibrationError>,
)
    requires
        call_ensures(Calibrator::get_result, (run, reports), r),
        run.started,
        run.client_timestamps@.len() == 0,
        run.projector_count <= u32::MAX,
    ensures
        r is Ok,
        r->Ok_0@.len() == run.projector_count,
        forall|p: int, c: CameraId|
            0 <= p < r->Ok_0@.len() ==> (#[trigger] r->Ok_0@[p].cameras@.contains_key(c) <==> c
                < reports@.len() && reports@[c as int] is Some
                && reports@[c as int]->Some_0@.contains_key(p as u32)),
        forall|p: int, c: CameraId|
            0 <= p < r->Ok_0@.len() && #[trigger] r->Ok_0@[p].cameras@.contains_key(c)
                ==> r->Ok_0@[p].cameras@[c] == reports@[c as int]->Some_0@[p as u32],
{
    assert forall|p: int, c: CameraId| 0 <= p < r->Ok_0@.len() implies (
    #[trigger] r->Ok_0@[p].cameras@.contains_key(c) <==> c < reports@.len()
        && reports@[c as int] is Some && reports@[c as int]->Some_0@.contains_key(p as u32)) by {
        assert(r->Ok_0@[p].cameras@ == result_for(reports@, run.projector_count, p));
    }
    assert forall|p: int, c: CameraId|
        0 <= p < r->Ok_0@.len() && #[trigger] r->Ok_0@[p].cameras@.contains_key(
            c,
        ) implies r->Ok_0@[p].cameras@[c] == reports@[c as int]->Some_0@[p as u32] by {
        assert(r->Ok_0@[p].cameras@ == result_for(reports@, run.projector_count, p));
    }
}

/// A run that ends keeps just what the cameras reported; one that cannot end keeps
/// what it had.
pub proof fn law_finish_keeps_the_reports(
    run: &mut Calibrator,
    reports: &Reports,
    r: Result<(), CalibrationError>,
    p: int,
    c: CameraId,
)
    requires
        call_ensures(Calibrator::finish, (run, reports), r),
        old(run).projector_count <= u32::MAX,
        0 <= p < old(run).projector_count,
    ensures
        r is Ok <==> old(run).started && old(run).client_timestamps@.len() == 0,
        r is Err ==> *final(run) == *old(run),
        r is Ok ==> final(run).result is Some && final(run).result->Some_0@.len() == old(run).projector_count,
        r is Ok ==> {
            let cameras = final(run).result->Some_0@[p].cameras@;
            &&& cameras.contains_key(c) <==> c < reports@.len() && reports@[c as int] is Some
                && reports@[c as int]->Some_0@.contains_key(p as u32)
            &&& cameras.contains_key(c) ==> cameras[c] == reports@[c as int]->Some_0@[p as u32]
        },
{
    if r is Ok {
        assert(final(run).result->Some_0@[p].cameras@ == result_for(
            reports@,
            old(run).projector_count,
            p,
        ));
    }
}

/// A camera samples every frame at the moment at which the host projects it, plus
/// the capture delay: the time on its own schedule, the half round trip after which
/// its clock starts, and the time gone before the schedule was sent add up to it. The
/// host has one frame more.
pub proof fn law_cameras_follow_the_host(
    run: &mut Calibrator,
    rtts: &Vec<Option<u32>>,
    start_delay: u32,
    interval: u32,
    area: u32,
    armed: Result<RoundTrips, CalibrationError>,
    camera: usize,
    capture_delay: u32,
    elapsed_ms: u128,
    times: Vec<u32>,
)
    requires
        call_ensures(Calibrator::set_timestamps, (run, rtts, start_delay, interval, area), armed),
        armed is Ok,
        old(run).projector_count > 0,
        camera < rtts@.len(),
        call_ensures(
            Calibrator::camera_timestamps,
            (
                final(run),
                &armed->Ok_0,
                camera,
                start_delay,
                capture_delay,
                elapsed_ms,
                interval,
                area,
            ),
            times,
        ),
        interval <= area,
        armed->Ok_0.longest + start_delay + capture_delay - rtts@[camera as int]->Some_0 / 2 - (
        elapsed_ms as u32) >= 0,
        run_fits(
            armed->Ok_0.longest + start_delay + capture_delay,
            interval as int,
            area as int,
            frame_count(old(run).run_bits() as int, true),
        ),
    ensures
        final(run).client_timestamps@.len() == times@.len() + 1,
        forall|i: int|
            0 <= i < times@.len() ==> #[trigger] times@[i] + rtts@[camera as int]->Some_0 / 2 + (
            elapsed_ms as u32) == final(run).client_timestamps@[i] + capture_delay,
{
    let trips = armed->Ok_0;
    let rtt = trips.each@[camera as int];
    assert(rtts@[camera as int] == Some(trips.each@[camera as int]));
    let n = frame_count(old(run).run_bits() as int, true);
    let (step, gap) = (interval as int, area as int);
    let first = camera_start(trips.longest, start_delay, capture_delay, rtt, elapsed_ms);
    assert forall|i: int| 0 <= i < times@.len() implies #[trigger] times@[i]
        + rtts@[camera as int]->Some_0 / 2 + (elapsed_ms as u32) == final(run).client_timestamps@[i] + capture_delay by {
        crate::schedule::law_frames_ascend(trips.longest + start_delay + capture_delay, step, gap, i, n);
        crate::schedule::law_frames_ascend(trips.longest + start_delay, step, gap, i, n);
        crate::schedule::law_frames_ascend(first, step, gap, i, n);
    }
}

} // verus!
