//! Where projector output windows go, and what they are called.

use vstd::prelude::*;
use vstd::string::*;

use crate::text::{decimal, law_decimal_reads_back, push_decimal, reads_as};

verus! {

/// How long a projected image settles before a frame is captured, in ms.
pub const SETTLE_MS: i32 = 800;

/// Width that is taken for the primary display where none can be queried.
pub const FALLBACK_WIDTH: i32 = 1920;

/// What is known of a display.
#[derive(Clone, Copy, Debug, PartialEq, Eq, Structural)]
pub struct Display {
    /// Whether this is the primary display.
    pub is_primary: bool,
    /// Width in window coordinates.
    pub width: u32,
}

/// The title of the window of projector `id`.
pub open spec fn winname(id: nat) -> Seq<char> {
    "Pattern "@ + decimal(id)
}

/// Window title for projector `id` (one window per projector).
pub fn get_winname(id: usize) -> (name: String)
    ensures
        name@ == winname(id as nat),
{
    let mut name = String::new();
    name.append("Pattern ");
    push_decimal(&mut name, id as u64);
    assert(name@ =~= winname(id as nat));
    name
}

/// The first primary display.
pub open spec fn first_primary(displays: Seq<Display>) -> Option<Display>
    decreases displays.len(),
{
    if displays.len() == 0 {
        None
    } else if displays[0].is_primary {
        Some(displays[0])
    } else {
        first_primary(displays.skip(1))
    }
}

/// The width of the first primary display; of the first display, where none is
/// primary; the fallback, where there is no display or none could be queried.
pub open spec fn primary_width(displays: Option<Seq<Display>>) -> i32 {
    match displays {
        None => FALLBACK_WIDTH,
        Some(all) => match first_primary(all) {
            Some(display) => display.width as i32,
            None => if all.len() > 0 {
                all[0].width as i32
            } else {
                FALLBACK_WIDTH
            },
        },
    }
}

/// The queried displays, as a sequence.
pub open spec fn listed(displays: Option<&Vec<Display>>) -> Option<Seq<Display>> {
    match displays {
        Some(all) => Some(all@),
        None => None,
    }
}

/// Width of the primary display, in the window coordinate space. `displays` are
/// the displays, or `None` if they could not be queried.
///
/// Used as the horizontal offset to place projector windows to the right of the
/// primary display.
pub fn primary_display_width(displays: Option<&Vec<Display>>) -> (r: i32)
    ensures
        r == primary_width(listed(displays)),
{
    match displays {
        None => FALLBACK_WIDTH,
        Some(all) => {
            let mut i: usize = 0;
            assert(all@.skip(0) =~= all@);
            while i < all.len()
                invariant
                    displays == Some(all),
                    i <= all.len(),
                    first_primary(all@.skip(i as int)) == first_primary(all@),
                decreases all.len() - i,
            {
                if all[i].is_primary {
                    return #[verifier::truncate] (all[i].width as i32);
                }
                assert(all@.skip(i as int).skip(1) =~= all@.skip(i + 1));
                i += 1;
            }
            if all.len() > 0 {
                #[verifier::truncate]
                (all[0].width as i32)
            } else {
                FALLBACK_WIDTH
            }
        },
    }
}

/// Horizontal position of the window of projector `id`: windows stand side by
/// side, to the right of the primary display.
pub fn window_x(displays: Option<&Vec<Display>>, id: usize, projector_width: i32) -> (r: i32)
    requires
        i32::MIN <= (id as i32) * projector_width <= i32::MAX,
        i32::MIN <= primary_width(listed(displays)) + (id as i32) * projector_width <= i32::MAX,
    ensures
        r == primary_width(listed(displays)) + (id as i32) * projector_width,
{
    let position: i32 = #[verifier::truncate] (id as i32);
    primary_display_width(displays) + position * projector_width
}

// ---- laws ----

/// Where every display has a width that is positive as a window coordinate, so
/// has the primary one, whether or not there is a display at all.
pub proof fn law_primary_width_positive(displays: Option<Seq<Display>>)
    requires
        displays is Some ==> forall|i: int|
            0 <= i < displays->Some_0.len() ==> 0 < (#[trigger] displays->Some_0[i]).width <= i32::MAX,
    ensures
        primary_width(displays) > 0,
{
    if let Some(all) = displays {
        lemma_first_primary_is_listed(all);
        if all.len() > 0 {
            assert(0 < all[0].width <= i32::MAX);
        }
    }
}

/// The first primary display is one of the displays, and primary.
proof fn lemma_first_primary_is_listed(displays: Seq<Display>)
    ensures
        first_primary(displays) matches Some(d) ==> d.is_primary && displays.contains(d),
        first_primary(displays) is None ==> forall|i: int|
            0 <= i < displays.len() ==> !(#[trigger] displays[i]).is_primary,
    decreases displays.len(),
{
    if displays.len() > 0 {
        let rest = displays.skip(1);
        lemma_first_primary_is_listed(rest);
        if displays[0].is_primary {
            assert(displays.contains(displays[0]));
        } else if let Some(d) = first_primary(rest) {
            let i = choose|i: int| 0 <= i < rest.len() && rest[i] == d;
            assert(displays[i + 1] == d);
        } else {
            assert forall|i: int| 0 <= i < displays.len() implies !(
            #[trigger] displays[i]).is_primary by {
                if i > 0 {
                    assert(!rest[i - 1].is_primary);
                }
            }
        }
    }
}

/// A primary display is preferred to all others.
pub proof fn law_primary_display_preferred(displays: Seq<Display>)
    requires
        exists|i: int| 0 <= i < displays.len() && (#[trigger] displays[i]).is_primary,
    ensures
        exists|i: int|
            0 <= i < displays.len() && (#[trigger] displays[i]).is_primary && primary_width(
                Some(displays),
            ) == displays[i].width as i32,
{
    lemma_first_primary_is_listed(displays);
    let d = first_primary(displays)->Some_0;
    let i = choose|i: int| 0 <= i < displays.len() && displays[i] == d;
    assert(displays[i].is_primary);
}

/// Different projectors have windows of different names.
pub proof fn law_winnames_distinct(a: nat, b: nat)
    ensures
        winname(a) == winname(b) ==> a == b,
{
    if winname(a) == winname(b) {
        let prefix = "Pattern "@;
        assert(winname(a).skip(prefix.len() as int) =~= decimal(a));
        assert(winname(b).skip(prefix.len() as int) =~= decimal(b));
        crate::text::lemma_decimal_distinct(a, b);
    }
}

/// The width is that of the first primary display; where none is primary, that of the
/// first display; and the fallback where there is none, or where they are not known.
pub proof fn law_display_width(displays: Option<&Vec<Display>>, r: i32, i: int)
    requires
        call_ensures(primary_display_width, (displays,), r),
    ensures
        displays is None ==> r == 1920,
        displays is Some && displays->Some_0@.len() == 0 ==> r == 1920,
        displays is Some && 0 <= i < displays->Some_0@.len() && displays->Some_0@[i].is_primary && (
        forall|j: int| 0 <= j < i ==> !(#[trigger] displays->Some_0@[j]).is_primary) ==> r
            == displays->Some_0@[i].width as i32,
        displays is Some && displays->Some_0@.len() > 0 && (forall|j: int|
            0 <= j < displays->Some_0@.len() ==> !(#[trigger] displays->Some_0@[j]).is_primary)
            ==> r == displays->Some_0@[0].width as i32,
{
    if displays is Some {
        let all = displays->Some_0@;
        if 0 <= i < all.len() && all[i].is_primary && (forall|j: int|
            0 <= j < i ==> !(#[trigger] all[j]).is_primary) {
            lemma_first_primary(all, i);
        }
        if forall|j: int| 0 <= j < all.len() ==> !(#[trigger] all[j]).is_primary {
            lemma_no_primary(all);
        }
    }
}

/// The first primary display.
proof fn lemma_first_primary(all: Seq<Display>, i: int)
    requires
        0 <= i < all.len(),
        all[i].is_primary,
        forall|j: int| 0 <= j < i ==> !(#[trigger] all[j]).is_primary,
    ensures
        first_primary(all) == Some(all[i]),
    decreases all.len(),
{
    if i > 0 {
        assert(!all[0].is_primary);
        let rest = all.skip(1);
        assert(rest[i - 1] == all[i]);
        assert forall|j: int| 0 <= j < i - 1 implies !(#[trigger] rest[j]).is_primary by {
            assert(rest[j] == all[j + 1]);
        }
        lemma_first_primary(rest, i - 1);
    }
}

/// Where none is primary, none is the first.
proof fn lemma_no_primary(all: Seq<Display>)
    requires
        forall|j: int| 0 <= j < all.len() ==> !(#[trigger] all[j]).is_primary,
    ensures
        first_primary(all) is None,
    decreases all.len(),
{
    if all.len() > 0 {
        assert(!all[0].is_primary);
        let rest = all.skip(1);
        assert forall|j: int| 0 <= j < rest.len() implies !(#[trigger] rest[j]).is_primary by {
            assert(rest[j] == all[j + 1]);
        }
        lemma_no_primary(rest);
    }
}

/// The windows stand side by side, in the order of the projectors, and the first begins
/// where the primary display ends.
pub proof fn law_windows_stand_side_by_side(
    displays: Option<&Vec<Display>>,
    id: usize,
    width: i32,
    primary: i32,
    first: i32,
    here: i32,
    next: i32,
)
    requires
        id < i32::MAX,
        call_ensures(primary_display_width, (displays,), primary),
        call_ensures(window_x, (displays, 0, width), first),
        call_ensures(window_x, (displays, id, width), here),
        call_ensures(window_x, (displays, (id + 1) as usize, width), next),
    ensures
        first == primary,
        next == here + width,
{
    assert((id as int + 1) * width == id as int * width + width) by (nonlinear_arith);
    assert((0usize as i32) * width == 0) by (nonlinear_arith);
}

/// A window is called by its projector's number, behind the word for all of them.
pub proof fn law_winname(id: usize, name: String)
    requires
        call_ensures(get_winname, (id,), name),
    ensures
        name@.len() > 8,
        name@.take(8) == "Pattern "@,
        reads_as(name@.skip(8), id as nat),
{
    reveal_strlit("Pattern ");
    law_decimal_reads_back(id as nat);
    assert(name@.take(8) =~= "Pattern "@);
    assert(name@.skip(8) =~= decimal(id as nat));
}

} // verus!
