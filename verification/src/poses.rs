//! Collecting point correspondences over board poses, for the three methods of
//! calibrating a projector's intrinsic and extrinsic parameters.

use itertools::Itertools;
use vstd::prelude::*;
use vstd::string::*;

use crate::content_projection::Correspondences;
use crate::external_calibrator::{ExternalError, CANCEL_KEY, DISCARD_KEY};
use crate::float_bits::F32;
use crate::text::decimal;
use crate::types::{Point2f, Point3f};

verus! {

/// Number of poses that are collected for each projector.
pub const POSES: usize = 8;

/// Number of refined cameras that a pose takes.
pub const CAMERAS_PER_POSE: usize = 4;

/// World<->projector correspondences for a single board pose.
#[derive(Debug)]
pub struct PointsPair {
    pub points_in_world: Vec<Point3f>,
    pub points_in_projector: Vec<Point2f>,
}

/// Accumulated per-pose correspondences for the three calibration methods.
#[derive(Debug)]
pub struct ConventionalProposed {
    pub conventional: Vec<PointsPair>,
    pub proposed: Vec<PointsPair>,
    pub proposed_unfixed: Vec<PointsPair>,
}

/// A way to get at a projector's parameters.
#[derive(Clone, Copy, Debug, PartialEq, Eq, Structural)]
pub enum Method {
    /// With the external camera.
    Conventional,
    /// With the embedded cameras and the compensation mesh.
    Proposed,
    /// With the embedded cameras at their nominal positions.
    ProposedUnfixed,
}

impl ConventionalProposed {
    /// All three methods have the same number of poses.
    pub open spec fn wf(self) -> bool {
        &&& self.proposed@.len() == self.conventional@.len()
        &&& self.proposed_unfixed@.len() == self.conventional@.len()
    }

    /// The poses of one method.
    pub open spec fn poses(self, method: Method) -> Seq<PointsPair> {
        match method {
            Method::Conventional => self.conventional@,
            Method::Proposed => self.proposed@,
            Method::ProposedUnfixed => self.proposed_unfixed@,
        }
    }

    /// Nothing collected.
    pub fn new() -> (r: Self)
        ensures
            r.wf(),
            r.conventional@ == Seq::<PointsPair>::empty(),
            r.proposed@ == Seq::<PointsPair>::empty(),
            r.proposed_unfixed@ == Seq::<PointsPair>::empty(),
    {
        ConventionalProposed {
            conventional: Vec::new(),
            proposed: Vec::new(),
            proposed_unfixed: Vec::new(),
        }
    }

    /// Number of poses collected (all three methods stay in lockstep).
    pub fn len(&self) -> (n: usize)
        ensures
            n == self.conventional@.len(),
            self.wf() ==> forall|m: Method| #[trigger] self.poses(m).len() == n,
    {
        self.conventional.len()
    }

    /// Append one pose's correspondences for all three methods.
    pub fn push(
        &mut self,
        conventional: PointsPair,
        proposed: PointsPair,
        proposed_unfixed: PointsPair,
    )
        ensures
            old(self).wf() ==> final(self).wf(),
            final(self).conventional@ == old(self).conventional@.push(conventional),
            final(self).proposed@ == old(self).proposed@.push(proposed),
            final(self).proposed_unfixed@ == old(self).proposed_unfixed@.push(proposed_unfixed),
    {
        self.conventional.push(conventional);
        self.proposed.push(proposed);
        self.proposed_unfixed.push(proposed_unfixed);
    }

    /// The poses of one method.
    pub fn of(&self, method: Method) -> (r: &Vec<PointsPair>)
        ensures
            r@ == self.poses(method),
    {
        match method {
            Method::Conventional => &self.conventional,
            Method::Proposed => &self.proposed,
            Method::ProposedUnfixed => &self.proposed_unfixed,
        }
    }
}

impl Method {
    /// The methods, in the order in which they are evaluated.
    pub fn all() -> (r: Vec<Method>)
        ensures
            r@ == seq![Method::Conventional, Method::Proposed, Method::ProposedUnfixed],
    {
        let mut r: Vec<Method> = Vec::new();
        r.push(Method::Conventional);
        r.push(Method::Proposed);
        r.push(Method::ProposedUnfixed);
        assert(r@ =~= seq![Method::Conventional, Method::Proposed, Method::ProposedUnfixed]);
        r
    }

    /// Whether the method has too few points per pose to fit lens distortion, so
    /// that it is taken to be zero.
    pub fn fixes_distortion(self) -> (r: bool)
        ensures
            r == (self != Method::Conventional),
    {
        match self {
            Method::Conventional => false,
            Method::Proposed => true,
            Method::ProposedUnfixed => true,
        }
    }

    /// The subdirectory that the results of the method go to.
    pub fn directory(self) -> (r: &'static str)
        ensures
            r@ == match self {
                Method::Conventional => "conventional"@,
                Method::Proposed => "proposed"@,
                Method::ProposedUnfixed => "proposed_unfixed"@,
            },
    {
        match self {
            Method::Conventional => "conventional",
            Method::Proposed => "proposed",
            Method::ProposedUnfixed => "proposed_unfixed",
        }
    }
}

// ---- collecting ----

/// The number of poses of each projector.
pub open spec fn counts_of(data: Seq<ConventionalProposed>) -> Seq<usize> {
    data.map_values(|d: ConventionalProposed| d.conventional@.len() as usize)
}

/// Some projector has too few poses.
pub open spec fn more_wanted(data: Seq<ConventionalProposed>) -> bool {
    exists|p: int| 0 <= p < data.len() && (#[trigger] data[p]).conventional@.len() < POSES
}

/// Whether poses are still to be collected.
pub fn needs_more(data: &Vec<ConventionalProposed>) -> (r: bool)
    ensures
        r == more_wanted(data@),
{
    let mut p: usize = 0;
    while p < data.len()
        invariant
            p <= data.len(),
            forall|q: int| 0 <= q < p ==> (#[trigger] data@[q]).conventional@.len() >= POSES,
        decreases data.len() - p,
    {
        if data[p].len() < POSES {
            assert(data@[p as int].conventional@.len() < POSES);
            return true;
        }
        p += 1;
    }
    false
}

/// Numbers in decimal, with a separator between them.
pub open spec fn joined(numbers: Seq<usize>, separator: Seq<char>) -> Seq<char>
    decreases numbers.len(),
{
    if numbers.len() == 0 {
        seq![]
    } else if numbers.len() == 1 {
        decimal(numbers[0] as nat)
    } else {
        joined(numbers.drop_last(), separator) + separator + decimal(numbers.last() as nat)
    }
}

/// Calls `itertools::Itertools::join` on numbers: their decimal texts, with the
/// separator between each two, in one string.
#[verifier::external_body]
fn join_numbers(numbers: &Vec<usize>, separator: &str) -> (text: String)
    ensures
        text@ == joined(numbers@, separator@),
{
    numbers.iter().join(separator)
}

/// The prompt for the next pose, with the number of poses of each projector.
pub fn next_pose_prompt(data: &Vec<ConventionalProposed>) -> (text: String)
    ensures
        text@ == "# Next { "@ + joined(counts_of(data@), ", "@) + " }: "@,
{
    let mut counts: Vec<usize> = Vec::new();
    let mut p: usize = 0;
    while p < data.len()
        invariant
            p <= data.len(),
            counts@ =~= counts_of(data@.take(p as int)),
        decreases data.len() - p,
    {
        counts.push(data[p].len());
        p += 1;
    }
    assert(data@.take(p as int) =~= data@);
    let numbers = join_numbers(&counts, ", ");
    let mut text = String::new();
    text.append("# Next { ");
    text.append(numbers.as_str());
    text.append(" }: ");
    assert(text@ =~= "# Next { "@ + joined(counts_of(data@), ", "@) + " }: "@);
    text
}

/// Whether enough cameras were refined to use a pose of a projector.
pub fn pose_succeeded(refined_cameras: usize) -> (r: bool)
    ensures
        r == (refined_cameras >= CAMERAS_PER_POSE),
{
    refined_cameras >= CAMERAS_PER_POSE
}

/// A point on the board, in space: its z is 0.
pub open spec fn on_board(p: Point2f) -> Point3f {
    Point3f { x: p.x, y: p.y, z: F32 { bits: 0 } }
}

/// The correspondences of a pose, with the board in space.
pub fn pose_points(correspondences: Correspondences) -> (r: PointsPair)
    ensures
        r.points_in_world@ == correspondences.from@.map_values(|p: Point2f| on_board(p)),
        r.points_in_projector == correspondences.to,
{
    let mut points_in_world: Vec<Point3f> = Vec::new();
    let mut i: usize = 0;
    while i < correspondences.from.len()
        invariant
            i <= correspondences.from.len(),
            points_in_world@ =~= correspondences.from@.take(i as int).map_values(
                |p: Point2f| on_board(p),
            ),
        decreases correspondences.from.len() - i,
    {
        let p = correspondences.from[i];
        points_in_world.push(Point3f { x: p.x, y: p.y, z: F32 { bits: 0 } });
        i += 1;
    }
    assert(correspondences.from@.take(i as int) =~= correspondences.from@);
    PointsPair { points_in_world, points_in_projector: correspondences.to }
}

/// What to do while waiting for the external camera.
#[derive(Clone, Copy, Debug, PartialEq, Eq, Structural)]
pub enum CameraWait {
    /// Use the camera.
    Ready,
    /// Try again.
    Again,
}

/// Decide after an attempt to open the external camera, during which the
/// operator pressed `key` (or none): an open camera is used whatever was pressed.
pub fn after_camera_wait(opened: bool, key: i32) -> (r: Result<CameraWait, ExternalError>)
    ensures
        r == if opened {
            Ok::<CameraWait, ExternalError>(CameraWait::Ready)
        } else if key == CANCEL_KEY {
            Err(ExternalError::WaitCancelled)
        } else {
            Ok(CameraWait::Again)
        },
{
    if opened {
        Ok(CameraWait::Ready)
    } else if key == CANCEL_KEY {
        Err(ExternalError::WaitCancelled)
    } else {
        Ok(CameraWait::Again)
    }
}

/// Whether the operator, who has seen the detected corners projected, discards
/// them, so that they are detected anew.
pub fn repeats_detection(key: i32) -> (r: bool)
    ensures
        r == (key == DISCARD_KEY),
{
    key == DISCARD_KEY
}

// ---- laws ----

/// However often poses are pushed, the three methods stay in lockstep: their
/// `i`-th poses belong to one another.
pub proof fn law_methods_in_lockstep(data: ConventionalProposed, a: Method, b: Method)
    requires
        data.wf(),
    ensures
        data.poses(a).len() == data.poses(b).len(),
{
}

/// A pose that was pushed is the last of its method, and no earlier one changed.
pub proof fn law_push_appends(
    before: ConventionalProposed,
    after: ConventionalProposed,
    conventional: PointsPair,
    proposed: PointsPair,
    proposed_unfixed: PointsPair,
    method: Method,
)
    requires
        after.conventional@ == before.conventional@.push(conventional),
        after.proposed@ == before.proposed@.push(proposed),
        after.proposed_unfixed@ == before.proposed_unfixed@.push(proposed_unfixed),
    ensures
        after.poses(method).len() == before.poses(method).len() + 1,
        after.poses(method).drop_last() == before.poses(method),
        after.poses(method).last() == match method {
            Method::Conventional => conventional,
            Method::Proposed => proposed,
            Method::ProposedUnfixed => proposed_unfixed,
        },
{
    assert(after.poses(method).drop_last() =~= before.poses(method));
}

/// When collecting ends, every projector has enough poses for every method.
pub proof fn law_collected_enough(data: Seq<ConventionalProposed>, p: int, method: Method)
    requires
        forall|q: int| 0 <= q < data.len() ==> (#[trigger] data[q]).wf(),
        !more_wanted(data),
        0 <= p < data.len(),
    ensures
        data[p].poses(method).len() >= POSES,
{
    assert(data[p].wf());
    assert(!(data[p].conventional@.len() < POSES));
}

/// A pose pairs every point on the board, at height zero, with its projector pixel,
/// in the order of the correspondences.
pub proof fn law_pose_keeps_points(correspondences: Correspondences, r: PointsPair)
    requires
        call_ensures(pose_points, (correspondences,), r),
    ensures
        r.points_in_world@.len() == correspondences.from@.len(),
        forall|i: int|
            0 <= i < r.points_in_world@.len() ==> {
                let p = #[trigger] r.points_in_world@[i];
                p.x == correspondences.from@[i].x && p.y == correspondences.from@[i].y && p.z.value()
                    == 0
            },
        r.points_in_projector@ == correspondences.to@,
{
}

/// Poses are collected until every projector has as many as are wanted of every
/// method, and no longer.
pub proof fn law_poses_are_collected_to_the_end(data: &Vec<ConventionalProposed>, r: bool)
    requires
        call_ensures(needs_more, (data,), r),
        forall|p: int| 0 <= p < data@.len() ==> (#[trigger] data@[p]).wf(),
    ensures
        !r <==> forall|p: int|
            0 <= p < data@.len() ==> (#[trigger] data@[p]).conventional@.len() >= 8
                && data@[p].proposed@.len() >= 8 && data@[p].proposed_unfixed@.len() >= 8,
{
    if !r {
        assert forall|p: int| 0 <= p < data@.len() implies (#[trigger] data@[p]).conventional@.len() >= 8
            && data@[p].proposed@.len() >= 8 && data@[p].proposed_unfixed@.len() >= 8 by {
            assert(data@[p].wf());
        }
    }
}

/// A pose that is pushed stands behind those of before, with each method what was
/// pushed for it.
pub proof fn law_pushed_pose_is_last(
    data: &mut ConventionalProposed,
    conventional: PointsPair,
    proposed: PointsPair,
    proposed_unfixed: PointsPair,
    method: Method,
    before: &Vec<PointsPair>,
    after: &Vec<PointsPair>,
)
    requires
        call_ensures(
            ConventionalProposed::push,
            (data, conventional, proposed, proposed_unfixed),
            (),
        ),
        call_ensures(ConventionalProposed::of, (&*old(data), method), before),
        call_ensures(ConventionalProposed::of, (&*final(data), method), after),
    ensures
        after@.len() == before@.len() + 1,
        forall|i: int| 0 <= i < before@.len() ==> #[trigger] after@[i] == before@[i],
        method is Conventional ==> after@[before@.len() as int] == conventional,
        method is Proposed ==> after@[before@.len() as int] == proposed,
        method is ProposedUnfixed ==> after@[before@.len() as int] == proposed_unfixed,
{
}

/// There is nothing collected at first, and what is counted are the poses of any of the
/// methods, of which there are as many of each.
pub proof fn law_poses_are_counted(
    data: ConventionalProposed,
    start: ConventionalProposed,
    n: usize,
    method: Method,
    poses: &Vec<PointsPair>,
    none: &Vec<PointsPair>,
)
    requires
        call_ensures(ConventionalProposed::new, (), start),
        call_ensures(ConventionalProposed::of, (&start, method), none),
        call_ensures(ConventionalProposed::len, (&data,), n),
        call_ensures(ConventionalProposed::of, (&data, method), poses),
        data.wf(),
    ensures
        none@.len() == 0,
        n == poses@.len(),
{
    assert(data.poses(method).len() == n);
}

/// All three methods are run, in turn; the distortion is fixed for the proposed ones
/// alone; and each has a directory of its own.
pub proof fn law_methods(method: Method, all: Vec<Method>, fixes: bool, directory: &str)
    requires
        call_ensures(Method::all, (), all),
        call_ensures(Method::fixes_distortion, (method,), fixes),
        call_ensures(Method::directory, (method,), directory),
    ensures
        all@.contains(method),
        all@.len() == 3,
        all@[0] is Conventional,
        all@[1] is Proposed,
        all@[2] is ProposedUnfixed,
        fixes <==> method is Proposed || method is ProposedUnfixed,
        method is Conventional ==> directory@ == "conventional"@,
        method is Proposed ==> directory@ == "proposed"@,
        method is ProposedUnfixed ==> directory@ == "proposed_unfixed"@,
{
    assert(all@[0] == Method::Conventional && all@[1] == Method::Proposed && all@[2]
        == Method::ProposedUnfixed);
}

/// What the operator is asked before the next pose: how many poses each projector has,
/// in order, parted by commas. One more projector adds its number at the end.
pub proof fn law_prompt_tells_counts(
    data: &Vec<ConventionalProposed>,
    more: &Vec<ConventionalProposed>,
    last: ConventionalProposed,
    text: String,
    longer: String,
)
    requires
        call_ensures(next_pose_prompt, (data,), text),
        call_ensures(next_pose_prompt, (more,), longer),
        more@ == data@.push(last),
    ensures
        data@.len() == 0 ==> text@ == "# Next {  }: "@ && longer@ == "# Next { "@ + decimal(
            last.conventional.len() as nat,
        ) + " }: "@,
        data@.len() > 0 ==> longer@ == text@.take(text@.len() - 4) + ", "@ + decimal(
            last.conventional.len() as nat,
        ) + " }: "@,
{
    reveal_strlit("# Next { ");
    reveal_strlit(" }: ");
    reveal_strlit("# Next {  }: ");
    let (few, many) = (counts_of(data@), counts_of(more@));
    assert(many.drop_last() =~= few);
    assert(many.last() == last.conventional.len());
    assert(last.conventional@.len() == last.conventional.len());
    if data@.len() == 0 {
        assert(text@ =~= "# Next {  }: "@);
        assert(longer@ =~= "# Next { "@ + decimal(last.conventional.len() as nat) + " }: "@);
    } else {
        assert(text@.take(text@.len() - 4) =~= "# Next { "@ + joined(few, ", "@));
        assert(longer@ =~= text@.take(text@.len() - 4) + ", "@ + decimal(
            last.conventional.len() as nat,
        ) + " }: "@);
    }
}

/// A pose takes four refined cameras or more; `n` has a detection repeated, and `q`
/// gives up waiting for a camera that does not open.
pub proof fn law_pose_decisions(
    refined_cameras: usize,
    succeeded: bool,
    opened: bool,
    key: i32,
    wait: Result<CameraWait, ExternalError>,
    repeats: bool,
)
    requires
        call_ensures(pose_succeeded, (refined_cameras,), succeeded),
        call_ensures(after_camera_wait, (opened, key), wait),
        call_ensures(repeats_detection, (key,), repeats),
    ensures
        succeeded <==> refined_cameras >= 4,
        opened ==> wait is Ok && wait->Ok_0 is Ready,
        !opened && key == 113 ==> wait is Err && wait->Err_0 is WaitCancelled,
        !opened && key != 113 ==> wait is Ok && wait->Ok_0 is Again,
        repeats <==> key == 110,
{
}

} // verus!
