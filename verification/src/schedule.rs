//! Capture schedules: when the host projects each frame and when each camera
//! samples it.
//!
//! Times are in milliseconds. Host times count from the moment the schedule
//! starts; a camera counts from the moment its schedule arrives, so its start is
//! moved by the time already gone and by half a round trip.

use vstd::prelude::*;

verus! {

// ---- round trips ----

/// The round trips of all cameras, in ms.
#[derive(Debug)]
pub struct RoundTrips {
    /// One round trip per camera, in camera order.
    pub each: Vec<u32>,
    /// The longest of them.
    pub longest: u32,
}

/// All cameras answered.
pub open spec fn all_answered(rtts: Seq<Option<u32>>) -> bool {
    forall|i: int| 0 <= i < rtts.len() ==> (#[trigger] rtts[i]) is Some
}

/// `value` is the largest element of `values`.
pub open spec fn largest(values: Seq<u32>, value: u32) -> bool {
    &&& values.contains(value)
    &&& forall|i: int| 0 <= i < values.len() ==> #[trigger] values[i] <= value
}

/// Gather the measured round trips; `None` if some camera did not answer.
pub fn gather_round_trips(rtts: &Vec<Option<u32>>) -> (r: Option<RoundTrips>)
    requires
        rtts@.len() > 0,
    ensures
        r is Some <==> all_answered(rtts@),
        r is Some ==> r->Some_0.each@.len() == rtts@.len(),
        r is Some ==> forall|i: int|
            0 <= i < rtts@.len() ==> rtts@[i] == Some(#[trigger] r->Some_0.each@[i]),
        r is Some ==> largest(r->Some_0.each@, r->Some_0.longest),
{
    let mut each: Vec<u32> = Vec::new();
    let mut longest: u32 = 0;
    let mut i: usize = 0;
    while i < rtts.len()
        invariant
            i <= rtts.len(),
            each@.len() == i,
            forall|j: int| 0 <= j < i ==> rtts@[j] == Some(#[trigger] each@[j]),
            i > 0 ==> largest(each@, longest),
            i == 0 ==> longest == 0,
        decreases rtts.len() - i,
    {
        match rtts[i] {
            Some(rtt) => {
                let ghost before = each@;
                each.push(rtt);
                if rtt >= longest {
                    longest = rtt;
                    assert(each@[i as int] == longest);
                } else {
                    let ghost k = choose|k: int| 0 <= k < before.len() && before[k] == longest;
                    assert(each@[k] == longest);
                }
            },
            None => {
                assert(rtts@[i as int] is None);
                return None;
            },
        }
        i += 1;
    }
    assert forall|j: int| 0 <= j < rtts@.len() implies (#[trigger] rtts@[j]) is Some by {
        assert(rtts@[j] == Some(each@[j]));
    }
    Some(RoundTrips { each, longest })
}

// ---- the Gray-code run ----

/// Number of frames of a run: a white/black pair and two frames per Gray-code
/// bit; the host has one more, during which the last frame is read out.
pub open spec fn frame_count(bits: int, for_client: bool) -> int {
    2 + 2 * bits + if for_client {
        1int
    } else {
        0int
    }
}

/// Time of frame `i` of a run that begins at `start`: the first two frames are
/// `interval` apart, then `area` passes for the area calculation, and from there
/// frames are `interval` apart again.
pub open spec fn frame_time(start: int, interval: int, area: int, i: int) -> int {
    if i < 2 {
        start + i * interval
    } else {
        start + interval + area + (i - 2) * interval
    }
}

/// The times of `count` frames.
pub open spec fn run_schedule(start: int, interval: int, area: int, count: int) -> Seq<u32> {
    Seq::new(count as nat, |i: int| frame_time(start, interval, area, i) as u32)
}

/// The clock does not overflow before the frame after the last.
pub open spec fn run_fits(start: int, interval: int, area: int, count: int) -> bool {
    interval <= area && frame_time(start, interval, area, count) <= u32::MAX
}

/// Build the capture schedule (ms timestamps) for one calibration run: a
/// white/black pair, an area-calculation gap, then two frames per Gray-code bit
/// (projector id + X + Y). `for_client` adds the host's trailing readout frame.
pub fn generate_timestamps(
    projector_id_bit_width: u32,
    graycode_x_count: u32,
    graycode_y_count: u32,
    start_delay: u32,
    interval: u32,
    area_calculation_interval: u32,
    for_client: bool,
) -> (data: Vec<u32>)
    requires
        2 * (projector_id_bit_width + graycode_x_count + graycode_y_count) + 1 <= u32::MAX,
        run_fits(
            start_delay as int,
            interval as int,
            area_calculation_interval as int,
            frame_count(
                projector_id_bit_width + graycode_x_count + graycode_y_count,
                for_client,
            ),
        ),
    ensures
        data@ == run_schedule(
            start_delay as int,
            interval as int,
            area_calculation_interval as int,
            frame_count(
                projector_id_bit_width + graycode_x_count + graycode_y_count,
                for_client,
            ),
        ),
{
    let ghost start = start_delay as int;
    let ghost step = interval as int;
    let ghost area = area_calculation_interval as int;
    let bits: u32 = projector_id_bit_width + graycode_x_count + graycode_y_count;
    let ghost count = frame_count(bits as int, for_client);
    let rest: u32 = 2 * bits + if for_client {
        1
    } else {
        0
    };
    let mut data: Vec<u32> = Vec::new();
    proof {
        lemma_frame_times_ascend(start, step, area, 2, count);
        assert(2 * step == step + step);
    }
    let mut time: u32 = start_delay;
    data.push(time);
    time += interval;
    data.push(time);
    time += interval;
    time += area_calculation_interval - interval;
    assert(data@[0] == frame_time(start, step, area, 0));
    assert(data@[1] == frame_time(start, step, area, 1));
    let mut i: u32 = 0;
    while i < rest
        invariant
            i <= rest,
            rest + 2 == count,
            start == start_delay,
            step == interval,
            area == area_calculation_interval,
            run_fits(start, step, area, count),
            time == frame_time(start, step, area, i + 2),
            data@.len() == i + 2,
            forall|j: int| 0 <= j < i + 2 ==> #[trigger] data@[j] == frame_time(start, step, area, j),
        decreases rest - i,
    {
        data.push(time);
        proof {
            assert((i + 1) * step == i * step + step) by (nonlinear_arith);
            lemma_frame_times_ascend(start, step, area, i + 3, count);
        }
        time += interval;
        i += 1;
    }
    assert(data@ =~= run_schedule(start, step, area, count));
    data
}

/// Later frames have later times.
proof fn lemma_frame_times_ascend(start: int, interval: int, area: int, i: int, j: int)
    requires
        0 <= interval <= area,
        0 <= i <= j,
    ensures
        frame_time(start, interval, area, i) <= frame_time(start, interval, area, j),
        start <= frame_time(start, interval, area, i),
{
    assert(0 <= i * interval && 0 <= j * interval) by (nonlinear_arith)
        requires
            0 <= i,
            0 <= j,
            0 <= interval,
    ;
    if i < 2 && j < 2 {
        assert(i * interval <= j * interval) by (nonlinear_arith)
            requires
                0 <= i <= j,
                0 <= interval,
        ;
    } else if i < 2 {
        assert(i * interval <= interval && 0 <= (j - 2) * interval) by (nonlinear_arith)
            requires
                0 <= i < 2 <= j,
                0 <= interval,
        ;
    } else {
        assert(0 <= (i - 2) * interval <= (j - 2) * interval) by (nonlinear_arith)
            requires
                2 <= i <= j,
                0 <= interval,
        ;
    }
}

// ---- the subpixel run ----

/// `count` times, `interval` apart, from `start` on.
pub open spec fn even_schedule(start: int, interval: int, count: int) -> Seq<u32> {
    Seq::new(count as nat, |i: int| (start + i * interval) as u32)
}

/// Build the evenly-spaced capture schedule for the subpixel refinement pass:
/// `additional_pattern_count` timestamps starting at `start_delay`, spaced
/// `interval` ms apart.
pub fn generate_timestamps_subpix(additional_pattern_count: usize, start_delay: u32, interval: u32) -> (
data: Vec<u32>)
    requires
        start_delay + additional_pattern_count * interval <= u32::MAX,
    ensures
        data@ == even_schedule(start_delay as int, interval as int, additional_pattern_count as int),
{
    let mut data: Vec<u32> = Vec::new();
    let mut time: u32 = start_delay;
    let mut i: usize = 0;
    while i < additional_pattern_count
        invariant
            i <= additional_pattern_count,
            start_delay + additional_pattern_count * interval <= u32::MAX,
            time == start_delay + i * interval,
            data@.len() == i,
            forall|j: int| 0 <= j < i ==> #[trigger] data@[j] == start_delay + j * interval,
        decreases additional_pattern_count - i,
    {
        data.push(time);
        assert((i + 1) * interval == i * interval + interval) by (nonlinear_arith);
        assert((i + 1) * interval <= additional_pattern_count * interval) by (nonlinear_arith)
            requires
                i < additional_pattern_count,
        ;
        time += interval;
        i += 1;
    }
    assert(data@ =~= even_schedule(
        start_delay as int,
        interval as int,
        additional_pattern_count as int,
    ));
    data
}

// ---- camera clocks ----

/// When a camera is to take its first frame, on its own clock: the host's first
/// frame plus `capture_delay`, less the time since the host's clock started and
/// less the half round trip that the schedule takes to arrive.
pub open spec fn camera_start(
    longest_rtt: u32,
    start_delay: u32,
    capture_delay: u32,
    rtt: u32,
    elapsed_ms: u128,
) -> int {
    longest_rtt + start_delay + capture_delay - rtt / 2 - (elapsed_ms as u32)
}

/// When a camera is to take its first frame, on its own clock.
pub fn camera_start_delay(
    longest_rtt: u32,
    start_delay: u32,
    capture_delay: u32,
    rtt: u32,
    elapsed_ms: u128,
) -> (r: u32)
    requires
        longest_rtt + start_delay + capture_delay <= u32::MAX,
        camera_start(longest_rtt, start_delay, capture_delay, rtt, elapsed_ms) >= 0,
    ensures
        r == camera_start(longest_rtt, start_delay, capture_delay, rtt, elapsed_ms),
{
    let gone: u32 = #[verifier::truncate] (elapsed_ms as u32);
    longest_rtt + start_delay + capture_delay - rtt / 2 - gone
}

/// How long to wait, in ms, when `elapsed_ms` are gone since the start, until
/// `time` ms are. A time that is over, or is now, gives 1: that still lets the
/// windows repaint, and does not wait for a key. A time further away than one wait
/// can last gives the longest wait.
pub fn wait_delay(time: u32, elapsed_ms: u128) -> (r: i32)
    ensures
        elapsed_ms >= time ==> r == 1,
        elapsed_ms < time && time - elapsed_ms <= i32::MAX ==> r == time - elapsed_ms,
        elapsed_ms < time && time - elapsed_ms > i32::MAX ==> r == i32::MAX,
{
    if elapsed_ms >= time as u128 {
        return 1;
    }
    let left: u32 = time - elapsed_ms as u32;
    if left <= 0x7fff_ffff {
        left as i32
    } else {
        i32::MAX
    }
}

// ---- laws ----

/// A schedule that fits the clock starts on it.
pub proof fn law_starts_before_end(start: int, interval: int, area: int, count: int)
    requires
        0 <= interval,
        0 <= count,
        run_fits(start, interval, area, count),
    ensures
        start <= u32::MAX,
{
    lemma_frame_times_ascend(start, interval, area, 0, count);
}

/// Later frames have later times, and none comes before the start.
pub proof fn law_frames_ascend(start: int, interval: int, area: int, i: int, j: int)
    requires
        0 <= interval <= area,
        0 <= i <= j,
    ensures
        start <= frame_time(start, interval, area, i) <= frame_time(start, interval, area, j),
        frame_time(start, interval, area, 0) == start,
{
    lemma_frame_times_ascend(start, interval, area, i, j);
    assert(0 * interval == 0) by (nonlinear_arith);
}

/// Frames are taken in order, at least `interval` apart, and the second and
/// third at least the area-calculation interval apart.
pub proof fn law_frames_spaced(start: int, interval: int, area: int, i: int)
    requires
        0 <= interval <= area,
        0 <= i,
    ensures
        frame_time(start, interval, area, i + 1) - frame_time(start, interval, area, i) >= interval,
        i == 1 ==> frame_time(start, interval, area, i + 1) - frame_time(start, interval, area, i)
            == area,
        i != 1 ==> frame_time(start, interval, area, i + 1) - frame_time(start, interval, area, i)
            == interval,
{
    assert((i + 1) * interval == i * interval + interval) by (nonlinear_arith);
    assert((i - 1) * interval == (i - 2) * interval + interval) by (nonlinear_arith);
    assert(2 * interval == interval + interval && 1 * interval == interval && 0 * interval == 0);
}

/// A wait lasts at least 1 ms, and does not reach past a time that is ahead.
pub proof fn law_waits_end_in_time(time: u32, elapsed_ms: u128, r: i32)
    requires
        call_ensures(wait_delay, (time, elapsed_ms), r),
    ensures
        r >= 1,
        elapsed_ms < time ==> elapsed_ms + r <= time,
        elapsed_ms < time <= i32::MAX ==> elapsed_ms + r == time,
{
}

/// All cameras take a frame at one moment: whatever its round trip and however
/// late its schedule is sent, the time of a frame on a camera's clock, the half
/// round trip after which that clock starts, and the time gone before the schedule
/// was sent add up to the time at which the host projects the frame, plus the
/// capture delay.
pub proof fn law_cameras_in_lock_step(
    longest_rtt: u32,
    start_delay: u32,
    capture_delay: u32,
    rtt: u32,
    elapsed_ms: u128,
    interval: int,
    area: int,
    bits: int,
    i: int,
)
    requires
        0 <= bits,
        0 <= interval,
        0 <= camera_start(longest_rtt, start_delay, capture_delay, rtt, elapsed_ms),
        run_fits(longest_rtt + start_delay, interval, area, frame_count(bits, true)),
        run_fits(
            camera_start(longest_rtt, start_delay, capture_delay, rtt, elapsed_ms),
            interval,
            area,
            frame_count(bits, false),
        ),
        0 <= i < frame_count(bits, false),
    ensures
        run_schedule(
            camera_start(longest_rtt, start_delay, capture_delay, rtt, elapsed_ms),
            interval,
            area,
            frame_count(bits, false),
        )[i] + rtt / 2 + (elapsed_ms as u32) == run_schedule(
            longest_rtt + start_delay,
            interval,
            area,
            frame_count(bits, true),
        )[i] + capture_delay,
{
    let first = camera_start(longest_rtt, start_delay, capture_delay, rtt, elapsed_ms);
    lemma_frame_times_ascend(longest_rtt + start_delay, interval, area, i, frame_count(bits, true));
    lemma_frame_times_ascend(first, interval, area, i, frame_count(bits, false));
}

/// In a calibration run, any two cameras take a frame at one moment.
pub proof fn law_cameras_agree(
    longest_rtt: u32,
    start_delay: u32,
    capture_delay: u32,
    a: (u32, u128),
    b: (u32, u128),
    interval: int,
    area: int,
    count: int,
    i: int,
)
    requires
        0 <= interval,
        0 <= i < count,
        0 <= camera_start(longest_rtt, start_delay, capture_delay, a.0, a.1),
        0 <= camera_start(longest_rtt, start_delay, capture_delay, b.0, b.1),
        run_fits(
            camera_start(longest_rtt, start_delay, capture_delay, a.0, a.1),
            interval,
            area,
            count,
        ),
        run_fits(
            camera_start(longest_rtt, start_delay, capture_delay, b.0, b.1),
            interval,
            area,
            count,
        ),
    ensures
        run_schedule(
            camera_start(longest_rtt, start_delay, capture_delay, a.0, a.1),
            interval,
            area,
            count,
        )[i] + a.0 / 2 + (a.1 as u32) == run_schedule(
            camera_start(longest_rtt, start_delay, capture_delay, b.0, b.1),
            interval,
            area,
            count,
        )[i] + b.0 / 2 + (b.1 as u32),
{
    let first_a = camera_start(longest_rtt, start_delay, capture_delay, a.0, a.1);
    let first_b = camera_start(longest_rtt, start_delay, capture_delay, b.0, b.1);
    lemma_frame_times_ascend(first_a, interval, area, i, count);
    lemma_frame_times_ascend(first_b, interval, area, i, count);
}

/// In a subpixel run too, all cameras take a frame at one moment: when the host
/// projects it, plus the capture delay.
pub proof fn law_subpix_cameras_in_lock_step(
    longest_rtt: u32,
    start_delay: u32,
    capture_delay: u32,
    rtt: u32,
    elapsed_ms: u128,
    interval: int,
    count: int,
    i: int,
)
    requires
        0 <= interval,
        0 <= i < count,
        0 <= camera_start(longest_rtt, start_delay, capture_delay, rtt, elapsed_ms),
        longest_rtt + start_delay + count * interval <= u32::MAX,
        camera_start(longest_rtt, start_delay, capture_delay, rtt, elapsed_ms) + count * interval
            <= u32::MAX,
    ensures
        even_schedule(
            camera_start(longest_rtt, start_delay, capture_delay, rtt, elapsed_ms),
            interval,
            count,
        )[i] + rtt / 2 + (elapsed_ms as u32) == even_schedule(
            longest_rtt + start_delay,
            interval,
            count,
        )[i] + capture_delay,
{
    assert(0 <= i * interval <= count * interval) by (nonlinear_arith)
        requires
            0 <= i < count,
            0 <= interval,
    ;
}

/// The schedule of a run starts at the start delay and has two frames, two more per
/// bit, and the host's one more; the second and third are the area-calculation
/// interval apart, and all others the interval.
pub proof fn law_run_timestamps(
    id_bits: u32,
    x_count: u32,
    y_count: u32,
    start_delay: u32,
    interval: u32,
    area: u32,
    for_client: bool,
    data: Vec<u32>,
)
    requires
        call_ensures(
            generate_timestamps,
            (id_bits, x_count, y_count, start_delay, interval, area, for_client),
            data,
        ),
        interval <= area,
        start_delay + interval + area + (2 * (id_bits + x_count + y_count) + if for_client {
            1int
        } else {
            0int
        }) * interval <= u32::MAX,
    ensures
        data@.len() == 2 + 2 * (id_bits + x_count + y_count) + if for_client {
            1int
        } else {
            0int
        },
        data@[0] == start_delay,
        forall|i: int|
            0 <= i < data@.len() - 1 ==> #[trigger] data@[i + 1] == data@[i] + if i == 1 {
                area
            } else {
                interval
            },
{
    let n = frame_count(id_bits + x_count + y_count, for_client);
    let (first, step, gap) = (start_delay as int, interval as int, area as int);
    law_frames_ascend(first, step, gap, 0, n);
    assert forall|i: int| 0 <= i < data@.len() - 1 implies #[trigger] data@[i + 1] == data@[i] + if i == 1 {
        area
    } else {
        interval
    } by {
        law_frames_spaced(first, step, gap, i);
        law_frames_ascend(first, step, gap, i, n);
        law_frames_ascend(first, step, gap, i + 1, n);
    }
}

/// The schedule of a subpixel run starts at the start delay, has as many times as
/// were asked for, and all are the interval apart.
pub proof fn law_subpix_timestamps(count: usize, start_delay: u32, interval: u32, data: Vec<u32>)
    requires
        call_ensures(generate_timestamps_subpix, (count, start_delay, interval), data),
        start_delay + count * interval <= u32::MAX,
    ensures
        data@.len() == count,
        count > 0 ==> data@[0] == start_delay,
        forall|i: int| 0 <= i < count - 1 ==> #[trigger] data@[i + 1] == data@[i] + interval,
{
    assert(0 * interval == 0) by (nonlinear_arith);
    assert forall|i: int| 0 <= i < count - 1 implies #[trigger] data@[i + 1] == data@[i] + interval by {
        assert((i + 1) * interval == i * interval + interval && 0 <= i * interval && (i + 1) * interval
            <= count * interval) by (nonlinear_arith)
            requires
                0 <= i < count - 1,
                0 <= interval,
        ;
    }
}

/// A camera's first frame, on the host's clock, comes after the longest round trip,
/// the start delay and the capture delay: its own start, plus the half round trip on
/// which its clock is behind, plus the time that was gone.
pub proof fn law_camera_start(
    longest_rtt: u32,
    start_delay: u32,
    capture_delay: u32,
    rtt: u32,
    elapsed_ms: u128,
    r: u32,
)
    requires
        call_ensures(
            camera_start_delay,
            (longest_rtt, start_delay, capture_delay, rtt, elapsed_ms),
            r,
        ),
    ensures
        r + rtt / 2 + (elapsed_ms as u32) == longest_rtt + start_delay + capture_delay,
{
}

/// The longest round trip is one of those measured, none of which is longer; and every
/// camera keeps its own.
pub proof fn law_longest_round_trip(rtts: &Vec<Option<u32>>, r: Option<RoundTrips>, i: int)
    requires
        call_ensures(gather_round_trips, (rtts,), r),
        rtts@.len() > 0,
        0 <= i < rtts@.len(),
    ensures
        rtts@[i] is None ==> r is None,
        (forall|j: int| 0 <= j < rtts@.len() ==> (#[trigger] rtts@[j]) is Some) ==> r is Some,
        r is Some ==> {
            &&& rtts@[i] == Some(r->Some_0.each@[i])
            &&& r->Some_0.each@.len() == rtts@.len()
            &&& r->Some_0.longest >= rtts@[i]->Some_0
            &&& exists|j: int|
                0 <= j < rtts@.len() && (#[trigger] rtts@[j]) == Some(r->Some_0.longest)
        },
{
    if r is Some {
        let each = r->Some_0.each@;
        let j = choose|j: int| 0 <= j < each.len() && each[j] == r->Some_0.longest;
        assert(rtts@[j] == Some(each[j]));
        assert(rtts@[i] == Some(each[i]));
    }
}

} // verus!
