//! The capture sequences of the two-projector alignment evaluation.
//!
//! Three calibration conditions are compared by projecting overlapping
//! checkerboards and resolution targets and capturing each; then each projector
//! is captured alone.

use vstd::prelude::*;

use crate::debug_viz::Color;
use crate::external_camera::{scene_exposure, Exposure, Scene};

verus! {

/// How long a projection settles before it is captured, in ms.
pub const SETTLE_MS: i32 = 300;

/// The calibration conditions being compared.
#[derive(Clone, Copy, Debug, PartialEq, Eq, Structural)]
pub enum Condition {
    /// With the external camera.
    Conventional,
    /// With the embedded cameras and the compensation mesh.
    Proposed,
    /// With the embedded cameras at their nominal positions.
    ProposedUncorrected,
}

impl Condition {
    /// The conditions, in the order in which they are captured.
    pub fn all() -> (r: Vec<Condition>)
        ensures
            r@ == seq![
                Condition::Conventional,
                Condition::Proposed,
                Condition::ProposedUncorrected,
            ],
    {
        let mut r: Vec<Condition> = Vec::new();
        r.push(Condition::Conventional);
        r.push(Condition::Proposed);
        r.push(Condition::ProposedUncorrected);
        assert(r@ =~= seq![
            Condition::Conventional,
            Condition::Proposed,
            Condition::ProposedUncorrected,
        ]);
        r
    }

    /// The name of the condition.
    pub fn name(self) -> (r: &'static str)
        ensures
            r@ == match self {
                Condition::Conventional => "Conventional"@,
                Condition::Proposed => "Proposed"@,
                Condition::ProposedUncorrected => "ProposedUncorrected"@,
            },
    {
        match self {
            Condition::Conventional => "Conventional",
            Condition::Proposed => "Proposed",
            Condition::ProposedUncorrected => "ProposedUncorrected",
        }
    }
}

/// What is put on the canvas and warped to a projector.
#[derive(Clone, Copy, Debug, PartialEq, Eq, Structural)]
pub enum Content {
    /// Nothing.
    Black,
    /// A checkerboard of that color.
    Checkerboard(Color),
    /// The USAF-1951 resolution target.
    Usaf1951,
    /// The sine-wave grating of that index.
    Wave(usize),
}

/// A step of the evaluation, to be carried out by the caller.
#[derive(Clone, Copy, Debug, PartialEq, Eq, Structural)]
pub enum AlignmentStep {
    /// Set up the external camera.
    Expose(Exposure),
    /// Show a black frame on the window of a projector.
    Blank(usize),
    /// Show content on the board, with one projector.
    Show { projector: usize, content: Content },
    /// Let the projection settle, capture it and save the frame.
    Capture,
}

/// The color of the first projector's checkerboard.
pub open spec fn red() -> Color {
    Color { blue: 0, green: 0, red: 255 }
}

/// The color of the second projector's checkerboard.
pub open spec fn green() -> Color {
    Color { blue: 0, green: 255, red: 0 }
}

/// The color of a single projector's checkerboard.
pub open spec fn white() -> Color {
    Color { blue: 255, green: 255, red: 255 }
}

/// The same content on the projectors from `first` up to `end`, then captured.
pub open spec fn captured(content: Content, first: int, end: int) -> Seq<AlignmentStep> {
    Seq::new(
        (end - first) as nat,
        |i: int| AlignmentStep::Show { projector: (first + i) as usize, content },
    ).push(AlignmentStep::Capture)
}

/// The gratings from 0 up to `waves`, each captured.
pub open spec fn captured_waves(waves: int, first: int, end: int) -> Seq<AlignmentStep>
    decreases waves,
{
    if waves <= 0 {
        seq![]
    } else {
        captured_waves(waves - 1, first, end) + captured(
            Content::Wave((waves - 1) as usize),
            first,
            end,
        )
    }
}

/// The resolution targets, each captured with a sharp exposure.
pub open spec fn captured_targets(waves: int, first: int, end: int) -> Seq<AlignmentStep> {
    seq![AlignmentStep::Expose(scene_exposure(Scene::Target))] + captured(
        Content::Usaf1951,
        first,
        end,
    ) + captured_waves(waves, first, end)
}

/// What is captured under one condition: the black reference, overlapping red
/// and green checkerboards, and the resolution targets.
pub open spec fn condition_capture(projectors: int, waves: int) -> Seq<AlignmentStep> {
    seq![AlignmentStep::Expose(scene_exposure(Scene::Alignment))] + captured(
        Content::Black,
        0,
        projectors,
    ) + seq![
        AlignmentStep::Show { projector: 0, content: Content::Checkerboard(red()) },
        AlignmentStep::Show { projector: 1, content: Content::Checkerboard(green()) },
        AlignmentStep::Capture,
    ] + captured_targets(waves, 0, projectors)
}

/// All projectors up to `count` but one, black.
pub open spec fn others_blanked(projector: int, count: int) -> Seq<AlignmentStep>
    decreases count,
{
    if count <= 0 {
        seq![]
    } else if count - 1 == projector {
        others_blanked(projector, count - 1)
    } else {
        others_blanked(projector, count - 1).push(AlignmentStep::Blank((count - 1) as usize))
    }
}

/// What is captured of one projector alone: the black reference, a white
/// checkerboard, and the resolution targets.
pub open spec fn single_capture(projector: int, count: int, waves: int) -> Seq<AlignmentStep> {
    others_blanked(projector, count) + seq![
        AlignmentStep::Expose(scene_exposure(Scene::Alignment)),
    ] + captured(Content::Black, projector, projector + 1) + captured(
        Content::Checkerboard(white()),
        projector,
        projector + 1,
    ) + captured_targets(waves, projector, projector + 1)
}

/// Append the same content on the projectors from `first` up to `end`, captured.
fn capture_content(steps: &mut Vec<AlignmentStep>, content: Content, first: usize, end: usize)
    requires
        first <= end,
    ensures
        final(steps)@ == old(steps)@ + captured(content, first as int, end as int),
{
    let ghost before = steps@;
    let mut p: usize = first;
    while p < end
        invariant
            first <= p <= end,
            steps@ =~= before + captured(content, first as int, p as int).drop_last(),
        decreases end - p,
    {
        steps.push(AlignmentStep::Show { projector: p, content });
        p += 1;
    }
    steps.push(AlignmentStep::Capture);
    assert(steps@ =~= before + captured(content, first as int, end as int));
}

/// Append the resolution targets, each captured.
fn capture_targets(steps: &mut Vec<AlignmentStep>, waves: usize, first: usize, end: usize)
    requires
        first <= end,
    ensures
        final(steps)@ == old(steps)@ + captured_targets(waves as int, first as int, end as int),
{
    let ghost before = steps@;
    steps.push(AlignmentStep::Expose(Scene::Target.exposure()));
    capture_content(steps, Content::Usaf1951, first, end);
    let ghost start = steps@;
    let mut w: usize = 0;
    assert(steps@ =~= start + captured_waves(0, first as int, end as int));
    while w < waves
        invariant
            first <= end,
            w <= waves,
            steps@ == start + captured_waves(w as int, first as int, end as int),
        decreases waves - w,
    {
        capture_content(steps, Content::Wave(w), first, end);
        assert(steps@ =~= start + captured_waves(w + 1, first as int, end as int));
        w += 1;
    }
    assert(steps@ =~= before + captured_targets(waves as int, first as int, end as int));
}

/// Lay out the captures under one condition, with so many projectors and
/// gratings.
pub fn condition_steps(projectors: usize, waves: usize) -> (steps: Vec<AlignmentStep>)
    requires
        projectors >= 2,
    ensures
        steps@ == condition_capture(projectors as int, waves as int),
{
    let mut steps: Vec<AlignmentStep> = Vec::new();
    steps.push(AlignmentStep::Expose(Scene::Alignment.exposure()));
    capture_content(&mut steps, Content::Black, 0, projectors);
    steps.push(
        AlignmentStep::Show {
            projector: 0,
            content: Content::Checkerboard(Color { blue: 0, green: 0, red: 255 }),
        },
    );
    steps.push(
        AlignmentStep::Show {
            projector: 1,
            content: Content::Checkerboard(Color { blue: 0, green: 255, red: 0 }),
        },
    );
    steps.push(AlignmentStep::Capture);
    capture_targets(&mut steps, waves, 0, projectors);
    assert(steps@ =~= condition_capture(projectors as int, waves as int));
    steps
}

/// Lay out the captures of one projector alone, with so many gratings.
pub fn single_steps(projector: usize, projector_count: usize, waves: usize) -> (steps: Vec<
    AlignmentStep,
>)
    requires
        projector < projector_count,
    ensures
        steps@ == single_capture(projector as int, projector_count as int, waves as int),
{
    let mut steps: Vec<AlignmentStep> = Vec::new();
    let mut i: usize = 0;
    while i < projector_count
        invariant
            i <= projector_count,
            steps@ == others_blanked(projector as int, i as int),
        decreases projector_count - i,
    {
        if i != projector {
            steps.push(AlignmentStep::Blank(i));
        }
        i += 1;
    }
    steps.push(AlignmentStep::Expose(Scene::Alignment.exposure()));
    capture_content(&mut steps, Content::Black, projector, projector + 1);
    capture_content(
        &mut steps,
        Content::Checkerboard(Color { blue: 255, green: 255, red: 255 }),
        projector,
        projector + 1,
    );
    capture_targets(&mut steps, waves, projector, projector + 1);
    assert(steps@ =~= single_capture(projector as int, projector_count as int, waves as int));
    steps
}

// ---- laws ----

/// Number of captures among steps.
pub open spec fn capture_count(steps: Seq<AlignmentStep>) -> nat
    decreases steps.len(),
{
    if steps.len() == 0 {
        0
    } else {
        capture_count(steps.drop_last()) + if steps.last() == AlignmentStep::Capture {
            1nat
        } else {
            0nat
        }
    }
}

/// Captures of two sequences of steps add up.
proof fn lemma_captures_add(a: Seq<AlignmentStep>, b: Seq<AlignmentStep>)
    ensures
        capture_count(a + b) == capture_count(a) + capture_count(b),
    decreases b.len(),
{
    if b.len() == 0 {
        assert(a + b =~= a);
    } else {
        assert((a + b).drop_last() =~= a + b.drop_last());
        lemma_captures_add(a, b.drop_last());
    }
}

/// Steps without a capture count none.
proof fn lemma_no_captures(steps: Seq<AlignmentStep>)
    requires
        forall|i: int| 0 <= i < steps.len() ==> #[trigger] steps[i] != AlignmentStep::Capture,
    ensures
        capture_count(steps) == 0,
    decreases steps.len(),
{
    if steps.len() > 0 {
        lemma_no_captures(steps.drop_last());
    }
}

/// Content is captured once.
proof fn lemma_captured_once(content: Content, first: int, end: int)
    ensures
        capture_count(captured(content, first, end)) == 1,
{
    let steps = captured(content, first, end);
    lemma_no_captures(steps.drop_last());
}

/// Each grating is captured once.
proof fn lemma_waves_captured(waves: int, first: int, end: int)
    requires
        0 <= waves,
    ensures
        capture_count(captured_waves(waves, first, end)) == waves,
    decreases waves,
{
    if waves > 0 {
        lemma_waves_captured(waves - 1, first, end);
        lemma_captured_once(Content::Wave((waves - 1) as usize), first, end);
        lemma_captures_add(
            captured_waves(waves - 1, first, end),
            captured(Content::Wave((waves - 1) as usize), first, end),
        );
    }
}

/// The targets are captured once each.
proof fn lemma_targets_captured(waves: int, first: int, end: int)
    requires
        0 <= waves,
    ensures
        capture_count(captured_targets(waves, first, end)) == 1 + waves,
{
    let expose = seq![AlignmentStep::Expose(scene_exposure(Scene::Target))];
    lemma_no_captures(expose);
    lemma_captured_once(Content::Usaf1951, first, end);
    lemma_waves_captured(waves, first, end);
    lemma_captures_add(expose, captured(Content::Usaf1951, first, end));
    lemma_captures_add(
        expose + captured(Content::Usaf1951, first, end),
        captured_waves(waves, first, end),
    );
}

/// Every condition and every single projector gives the same number of frames:
/// the black reference, the checkerboards, the USAF-1951 target and one per
/// grating.
pub proof fn law_same_frames_everywhere(projectors: int, projector: int, waves: int)
    requires
        0 <= waves,
        0 <= projector < projectors,
    ensures
        capture_count(condition_capture(projectors, waves)) == 3 + waves,
        capture_count(single_capture(projector, projectors, waves)) == 3 + waves,
{
    let expose = seq![AlignmentStep::Expose(scene_exposure(Scene::Alignment))];
    let boards = seq![
        AlignmentStep::Show { projector: 0, content: Content::Checkerboard(red()) },
        AlignmentStep::Show { projector: 1, content: Content::Checkerboard(green()) },
        AlignmentStep::Capture,
    ];
    lemma_no_captures(expose);
    lemma_no_captures(boards.drop_last());
    lemma_captured_once(Content::Black, 0, projectors);
    lemma_targets_captured(waves, 0, projectors);
    lemma_captures_add(expose, captured(Content::Black, 0, projectors));
    let a = expose + captured(Content::Black, 0, projectors);
    lemma_captures_add(a, boards);
    lemma_captures_add(a + boards, captured_targets(waves, 0, projectors));

    let blanked = others_blanked(projector, projectors);
    lemma_blanked_shows_nothing(projector, projectors);
    lemma_no_captures(blanked);
    lemma_captures_add(blanked, expose);
    let next = projector + 1;
    lemma_captured_once(Content::Black, projector, next);
    lemma_captured_once(Content::Checkerboard(white()), projector, next);
    lemma_targets_captured(waves, projector, next);
    let b = blanked + expose;
    lemma_captures_add(b, captured(Content::Black, projector, next));
    let c = b + captured(Content::Black, projector, next);
    lemma_captures_add(c, captured(Content::Checkerboard(white()), projector, next));
    let d = c + captured(Content::Checkerboard(white()), projector, next);
    lemma_captures_add(d, captured_targets(waves, projector, next));
}

/// Blanking projectors captures nothing.
proof fn lemma_blanked_shows_nothing(projector: int, count: int)
    ensures
        forall|i: int|
            0 <= i < others_blanked(projector, count).len() ==> #[trigger] others_blanked(
                projector,
                count,
            )[i] != AlignmentStep::Capture,
    decreases count,
{
    if count > 0 {
        lemma_blanked_shows_nothing(projector, count - 1);
    }
}

/// While one projector is captured alone, every other one is black.
pub proof fn law_single_projector_alone(projector: int, count: int, other: int)
    requires
        0 <= other < count <= usize::MAX,
        other != projector,
    ensures
        others_blanked(projector, count).contains(AlignmentStep::Blank(other as usize)),
    decreases count,
{
    let steps = others_blanked(projector, count);
    let before = others_blanked(projector, count - 1);
    if other == count - 1 {
        assert(steps[before.len() as int] == AlignmentStep::Blank(other as usize));
    } else {
        law_single_projector_alone(projector, count - 1, other);
        let i = choose|i: int|
            0 <= i < before.len() && before[i] == AlignmentStep::Blank(other as usize);
        assert(steps[i] == AlignmentStep::Blank(other as usize));
    }
}

// ---- what is on the saved frames ----

/// How the camera is set up after the steps.
pub open spec fn exposure_after(steps: Seq<AlignmentStep>) -> Option<Exposure>
    decreases steps.len(),
{
    if steps.len() == 0 {
        None
    } else {
        match steps.last() {
            AlignmentStep::Expose(exposure) => Some(exposure),
            _ => exposure_after(steps.drop_last()),
        }
    }
}

/// The step that last changed the window of projector `p`.
pub open spec fn window_after(steps: Seq<AlignmentStep>, p: usize) -> Option<AlignmentStep>
    decreases steps.len(),
{
    if steps.len() == 0 {
        None
    } else {
        match steps.last() {
            AlignmentStep::Blank(projector) if projector == p => Some(steps.last()),
            AlignmentStep::Show { projector, .. } if projector == p => Some(steps.last()),
            _ => window_after(steps.drop_last(), p),
        }
    }
}

/// For every capture, in order, how the camera is set up, and what is on the window
/// of projector `p`.
pub open spec fn saved(steps: Seq<AlignmentStep>, p: usize) -> Seq<
    (Option<Exposure>, Option<AlignmentStep>),
>
    decreases steps.len(),
{
    if steps.len() == 0 {
        seq![]
    } else {
        let before = steps.drop_last();
        match steps.last() {
            AlignmentStep::Capture => saved(before, p).push(
                (exposure_after(before), window_after(before, p)),
            ),
            _ => saved(before, p),
        }
    }
}

/// One more step.
proof fn lemma_saved_push(a: Seq<AlignmentStep>, step: AlignmentStep, p: usize)
    ensures
        exposure_after(a.push(step)) == match step {
            AlignmentStep::Expose(exposure) => Some(exposure),
            _ => exposure_after(a),
        },
        window_after(a.push(step), p) == match step {
            AlignmentStep::Blank(projector) if projector == p => Some(step),
            AlignmentStep::Show { projector, .. } if projector == p => Some(step),
            _ => window_after(a, p),
        },
        saved(a.push(step), p) == match step {
            AlignmentStep::Capture => saved(a, p).push((exposure_after(a), window_after(a, p))),
            _ => saved(a, p),
        },
{
    assert(a.push(step).drop_last() =~= a);
    assert(a.push(step).last() == step);
}

/// Content that is shown on some projectors and captured.
proof fn lemma_saved_captured(
    a: Seq<AlignmentStep>,
    content: Content,
    first: usize,
    end: usize,
    p: usize,
)
    requires
        first <= end,
    ensures
        ({
            let steps = a + captured(content, first as int, end as int);
            let on = if first <= p < end {
                Some(AlignmentStep::Show { projector: p, content })
            } else {
                window_after(a, p)
            };
            &&& exposure_after(steps) == exposure_after(a)
            &&& window_after(steps, p) == on
            &&& saved(steps, p) == saved(a, p).push((exposure_after(a), on))
        }),
{
    lemma_saved_shows(a, content, first, end, p);
    let shows = captured(content, first as int, end as int).drop_last();
    lemma_saved_push(a + shows, AlignmentStep::Capture, p);
    assert(a + captured(content, first as int, end as int) =~= (a + shows).push(
        AlignmentStep::Capture,
    ));
}

/// Content that is shown on some projectors.
proof fn lemma_saved_shows(
    a: Seq<AlignmentStep>,
    content: Content,
    first: usize,
    end: usize,
    p: usize,
)
    requires
        first <= end,
    ensures
        ({
            let steps = a + captured(content, first as int, end as int).drop_last();
            &&& exposure_after(steps) == exposure_after(a)
            &&& window_after(steps, p) == if first <= p < end {
                Some(AlignmentStep::Show { projector: p, content })
            } else {
                window_after(a, p)
            }
            &&& saved(steps, p) == saved(a, p)
        }),
    decreases end,
{
    let shows = captured(content, first as int, end as int).drop_last();
    if first == end {
        assert(a + shows =~= a);
    } else {
        let fewer = (end - 1) as usize;
        let before = captured(content, first as int, fewer as int).drop_last();
        lemma_saved_shows(a, content, first, fewer, p);
        lemma_saved_push(a + before, AlignmentStep::Show { projector: fewer, content }, p);
        assert(a + shows =~= (a + before).push(AlignmentStep::Show { projector: fewer, content }));
    }
}

/// The gratings.
proof fn lemma_saved_waves(a: Seq<AlignmentStep>, waves: nat, first: usize, end: usize, p: usize)
    requires
        first <= end,
        waves <= usize::MAX,
    ensures
        ({
            let steps = a + captured_waves(waves as int, first as int, end as int);
            &&& exposure_after(steps) == exposure_after(a)
            &&& !(first <= p < end) ==> window_after(steps, p) == window_after(a, p)
            &&& saved(steps, p) == saved(a, p) + Seq::new(
                waves,
                |w: int|
                    (
                        exposure_after(a),
                        if first <= p < end {
                            Some(
                                AlignmentStep::Show {
                                    projector: p,
                                    content: Content::Wave(w as usize),
                                },
                            )
                        } else {
                            window_after(a, p)
                        },
                    ),
            )
        }),
    decreases waves,
{
    let steps = a + captured_waves(waves as int, first as int, end as int);
    if waves == 0 {
        assert(steps =~= a);
        assert(saved(a, p) + Seq::new(
            waves,
            |w: int|
                (
                    exposure_after(a),
                    if first <= p < end {
                        Some(
                            AlignmentStep::Show { projector: p, content: Content::Wave(w as usize) },
                        )
                    } else {
                        window_after(a, p)
                    },
                ),
        ) =~= saved(a, p));
    } else {
        let fewer = (waves - 1) as nat;
        let before = a + captured_waves(fewer as int, first as int, end as int);
        lemma_saved_waves(a, fewer, first, end, p);
        lemma_saved_captured(before, Content::Wave(fewer as usize), first, end, p);
        assert(steps =~= before + captured(
            Content::Wave(fewer as usize),
            first as int,
            end as int,
        ));
        assert(saved(steps, p) =~= saved(a, p) + Seq::new(
            waves,
            |w: int|
                (
                    exposure_after(a),
                    if first <= p < end {
                        Some(
                            AlignmentStep::Show { projector: p, content: Content::Wave(w as usize) },
                        )
                    } else {
                        window_after(a, p)
                    },
                ),
        ));
    }
}

/// Blanked windows.
proof fn lemma_saved_blanked(projector: usize, count: usize, p: usize)
    ensures
        saved(others_blanked(projector as int, count as int), p) == Seq::<
            (Option<Exposure>, Option<AlignmentStep>),
        >::empty(),
        window_after(others_blanked(projector as int, count as int), p) == if p < count && p != projector {
            Some(AlignmentStep::Blank(p))
        } else {
            None
        },
    decreases count,
{
    if count > 0 {
        let fewer = (count - 1) as usize;
        lemma_saved_blanked(projector, fewer, p);
        if fewer != projector {
            lemma_saved_push(
                others_blanked(projector as int, fewer as int),
                AlignmentStep::Blank(fewer),
                p,
            );
        }
    }
}

/// The targets: the camera is set up anew, then the resolution target and every
/// grating is captured.
proof fn lemma_saved_targets(a: Seq<AlignmentStep>, waves: nat, first: usize, end: usize, p: usize)
    requires
        first <= end,
        waves <= usize::MAX,
    ensures
        ({
            let steps = a + captured_targets(waves as int, first as int, end as int);
            let n = saved(a, p).len();
            let exposure = Some(scene_exposure(Scene::Target));
            &&& saved(steps, p).len() == n + 1 + waves
            &&& saved(steps, p).take(n as int) == saved(a, p)
            &&& first <= p < end ==> saved(steps, p)[n as int] == (
                exposure,
                Some(AlignmentStep::Show { projector: p, content: Content::Usaf1951 }),
            )
            &&& first <= p < end ==> forall|w: int|
                0 <= w < waves ==> #[trigger] saved(steps, p)[n + 1 + w] == (
                    exposure,
                    Some(
                        AlignmentStep::Show { projector: p, content: Content::Wave(w as usize) },
                    ),
                )
            &&& !(first <= p < end) ==> forall|k: int|
                n <= k < n + 1 + waves ==> (#[trigger] saved(steps, p)[k]).1 == window_after(a, p)
        }),
{
    let b = a.push(AlignmentStep::Expose(scene_exposure(Scene::Target)));
    let c = b + captured(Content::Usaf1951, first as int, end as int);
    lemma_saved_push(a, AlignmentStep::Expose(scene_exposure(Scene::Target)), p);
    lemma_saved_captured(b, Content::Usaf1951, first, end, p);
    lemma_saved_waves(c, waves, first, end, p);
    assert(a + captured_targets(waves as int, first as int, end as int) =~= c + captured_waves(
        waves as int,
        first as int,
        end as int,
    ));
    let steps = a + captured_targets(waves as int, first as int, end as int);
    assert(saved(steps, p).take(saved(a, p).len() as int) =~= saved(a, p));
}

/// Under a condition the saved frames are, in order: all projectors black; a red
/// checkerboard on the first and a green one on the second, the others still black;
/// the resolution target on all; and then every grating once, in turn, on all. The
/// camera is set up for the checkerboards first, and for the targets from the third
/// frame on.
pub proof fn law_condition_frames(projectors: usize, waves: usize, steps: Vec<AlignmentStep>, p: usize)
    requires
        call_ensures(condition_steps, (projectors, waves), steps),
        projectors >= 2,
        p < projectors,
    ensures
        ({
            let show = |content: Content| Some(AlignmentStep::Show { projector: p, content });
            let frames = saved(steps@, p);
            let boards = Some(scene_exposure(Scene::Alignment));
            let targets = Some(scene_exposure(Scene::Target));
            &&& frames.len() == 3 + waves
            &&& frames[0] == (boards, show(Content::Black))
            &&& frames[1] == (boards, show(
                if p == 0 {
                    Content::Checkerboard(Color { blue: 0, green: 0, red: 255 })
                } else if p == 1 {
                    Content::Checkerboard(Color { blue: 0, green: 255, red: 0 })
                } else {
                    Content::Black
                },
            ))
            &&& frames[2] == (targets, show(Content::Usaf1951))
            &&& forall|w: int|
                0 <= w < waves ==> #[trigger] frames[3 + w] == (
                    targets,
                    show(Content::Wave(w as usize)),
                )
        }),
{
    let empty: Seq<AlignmentStep> = seq![];
    let a = empty.push(AlignmentStep::Expose(scene_exposure(Scene::Alignment)));
    let b = a + captured(Content::Black, 0, projectors as int);
    let left = AlignmentStep::Show { projector: 0, content: Content::Checkerboard(red()) };
    let right = AlignmentStep::Show { projector: 1, content: Content::Checkerboard(green()) };
    lemma_saved_push(empty, AlignmentStep::Expose(scene_exposure(Scene::Alignment)), p);
    lemma_saved_captured(a, Content::Black, 0, projectors, p);
    lemma_saved_push(b, left, p);
    lemma_saved_push(b.push(left), right, p);
    lemma_saved_push(b.push(left).push(right), AlignmentStep::Capture, p);
    let c = b.push(left).push(right).push(AlignmentStep::Capture);
    lemma_saved_targets(c, waves as nat, 0, projectors, p);
    assert(steps@ =~= c + captured_targets(waves as int, 0, projectors as int));
    let frames = saved(steps@, p);
    assert(frames.take(2)[0] == frames[0] && frames.take(2)[1] == frames[1]);
    assert forall|w: int| 0 <= w < waves implies #[trigger] frames[3 + w] == (
        Some(scene_exposure(Scene::Target)),
        Some(AlignmentStep::Show { projector: p, content: Content::Wave(w as usize) }),
    ) by {
        assert(frames[2 + 1 + w] == frames[3 + w]);
    }
}

/// When a projector is captured alone, the saved frames show on it, in order: black;
/// a white checkerboard; the resolution target; and then every grating once, in turn.
/// All other projectors are blanked throughout.
pub proof fn law_single_frames(
    projector: usize,
    projector_count: usize,
    waves: usize,
    steps: Vec<AlignmentStep>,
    p: usize,
)
    requires
        call_ensures(single_steps, (projector, projector_count, waves), steps),
        projector < projector_count,
        p < projector_count,
    ensures
        saved(steps@, p).len() == 3 + waves,
        p != projector ==> forall|k: int|
            0 <= k < 3 + waves ==> (#[trigger] saved(steps@, p)[k]).1 == Some(AlignmentStep::Blank(p)),
        p == projector ==> {
            let show = |content: Content| Some(AlignmentStep::Show { projector: p, content });
            let frames = saved(steps@, p);
            let boards = Some(scene_exposure(Scene::Alignment));
            let targets = Some(scene_exposure(Scene::Target));
            &&& frames[0] == (boards, show(Content::Black))
            &&& frames[1] == (boards, show(
                Content::Checkerboard(Color { blue: 255, green: 255, red: 255 }),
            ))
            &&& frames[2] == (targets, show(Content::Usaf1951))
            &&& forall|w: int|
                0 <= w < waves ==> #[trigger] frames[3 + w] == (
                    targets,
                    show(Content::Wave(w as usize)),
                )
        },
{
    let end = (projector + 1) as usize;
    let blanks = others_blanked(projector as int, projector_count as int);
    let a = blanks.push(AlignmentStep::Expose(scene_exposure(Scene::Alignment)));
    let b = a + captured(Content::Black, projector as int, end as int);
    let c = b + captured(Content::Checkerboard(white()), projector as int, end as int);
    lemma_saved_blanked(projector, projector_count, p);
    lemma_saved_push(blanks, AlignmentStep::Expose(scene_exposure(Scene::Alignment)), p);
    lemma_saved_captured(a, Content::Black, projector, end, p);
    lemma_saved_captured(b, Content::Checkerboard(white()), projector, end, p);
    lemma_saved_targets(c, waves as nat, projector, end, p);
    assert(steps@ =~= c + captured_targets(waves as int, projector as int, end as int));
    let frames = saved(steps@, p);
    assert(frames.take(2)[0] == frames[0] && frames.take(2)[1] == frames[1]);
    if p == projector {
        assert forall|w: int| 0 <= w < waves implies #[trigger] frames[3 + w] == (
            Some(scene_exposure(Scene::Target)),
            Some(AlignmentStep::Show { projector: p, content: Content::Wave(w as usize) }),
        ) by {
            assert(frames[2 + 1 + w] == frames[3 + w]);
        }
    }
}

} // verus!
