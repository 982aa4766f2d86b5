//! Projecting content onto the calibration board: where content goes on the
//! canvas, how far it is scaled down before it is warped, and which points a
//! projector's homography is fitted to.

use std::collections::HashMap;

use vstd::arithmetic::power2::{lemma2_to64, lemma_pow2_adds, lemma_pow2_strictly_increases, pow2};
use vstd::prelude::*;

use crate::float_bits::{
    law_nearest_single_rounds, lemma_magnitude_increases, magnitude_units, whole_rounds_to, F64,
};
use crate::listing::{
    ascending_keys, hashed_entries, law_listing_is_complete, lists, ordered_entries,
};
use crate::patterns::{
    covered, filled_squares, generate_checkered, law_checkered_alternates, lemma_whole_squares,
    squares_along,
};
use crate::types::{
    pixel_point, CalibrationResultEntry, CameraId, CameraResult, Point2f, Rect, Size,
};

verus! {

// ---- the canvas ----

/// Canvas layout (in millimetres) that content is placed onto before being
/// warped to each projector.
#[derive(Clone, Copy, Debug, PartialEq, Eq, Structural)]
pub struct CanvasLayout {
    pub width_mm: i32,
    pub height_mm: i32,
    pub content_x_start_mm: i32,
    pub content_x_end_mm: i32,
    pub content_y_start_mm: i32,
}

impl Default for CanvasLayout {
    /// The prototype board.
    fn default() -> (r: Self)
        ensures
            r == (CanvasLayout {
                width_mm: 220,
                height_mm: 160,
                content_x_start_mm: 20,
                content_x_end_mm: 200,
                content_y_start_mm: 0,
            }),
    {
        CanvasLayout {
            width_mm: 220,
            height_mm: 160,
            content_x_start_mm: 20,
            content_x_end_mm: 200,
            content_y_start_mm: 0,
        }
    }
}

/// Whether a number of pixels is a coordinate.
pub open spec fn is_pixel(n: int) -> bool {
    i32::MIN <= n <= i32::MAX
}

impl CanvasLayout {
    /// Width of the content placement region, in mm.
    pub open spec fn content_width(self) -> int {
        self.content_x_end_mm - self.content_x_start_mm
    }

    /// All lengths, in pixels, are coordinates.
    pub open spec fn fits(self, pixel_per_mm: int) -> bool {
        &&& is_pixel(self.content_width())
        &&& is_pixel(self.width_mm * pixel_per_mm)
        &&& is_pixel(self.height_mm * pixel_per_mm)
        &&& is_pixel(self.content_x_start_mm * pixel_per_mm)
        &&& is_pixel(self.content_y_start_mm * pixel_per_mm)
        &&& is_pixel(self.content_width() * pixel_per_mm)
        &&& is_pixel(self.height_mm * pixel_per_mm - self.content_y_start_mm * pixel_per_mm)
    }

    /// Width of the content placement region (`x_end - x_start`), in mm.
    pub fn content_width_mm(&self) -> (r: i32)
        requires
            is_pixel(self.content_width()),
        ensures
            r == self.content_width(),
    {
        self.content_x_end_mm - self.content_x_start_mm
    }

    /// Width that content is scaled to, in pixels: the whole content width.
    pub fn target_width(&self, pixel_per_mm: i32) -> (r: i32)
        requires
            is_pixel(self.content_width()),
            is_pixel(self.content_width() * pixel_per_mm),
        ensures
            r == self.content_width() * pixel_per_mm,
    {
        self.content_width_mm() * pixel_per_mm
    }
}

/// Where scaled content goes.
#[derive(Clone, Copy, Debug, PartialEq, Eq, Structural)]
pub struct Placement {
    /// Size of the canvas.
    pub canvas: Size,
    /// The part of the scaled content that is kept.
    pub kept: Rect,
    /// The part of the canvas that it is copied to.
    pub region: Rect,
}

/// Height of the content that is kept: what does not fit below the content's
/// upper edge is cut off.
pub open spec fn kept_height(layout: CanvasLayout, pixel_per_mm: int, target_height: int) -> int {
    let room = layout.height_mm * pixel_per_mm - layout.content_y_start_mm * pixel_per_mm;
    if target_height <= room {
        target_height
    } else {
        room
    }
}

/// Place content, scaled to the whole content width and to `target_height`, onto
/// a board-sized canvas. Content that is too high is cropped (not scaled) at the
/// bottom.
pub fn write_to_canvas(layout: &CanvasLayout, pixel_per_mm: i32, target_height: i32) -> (r: Placement)
    requires
        layout.fits(pixel_per_mm as int),
    ensures
        r.canvas.width == layout.width_mm * pixel_per_mm,
        r.canvas.height == layout.height_mm * pixel_per_mm,
        r.kept.x == 0,
        r.kept.y == 0,
        r.kept.width == layout.content_width() * pixel_per_mm,
        r.kept.height == kept_height(*layout, pixel_per_mm as int, target_height as int),
        r.region.x == layout.content_x_start_mm * pixel_per_mm,
        r.region.y == layout.content_y_start_mm * pixel_per_mm,
        r.region.width == r.kept.width,
        r.region.height == r.kept.height,
{
    let canvas = Size {
        width: layout.width_mm * pixel_per_mm,
        height: layout.height_mm * pixel_per_mm,
    };
    let x_start: i32 = layout.content_x_start_mm * pixel_per_mm;
    let y_start: i32 = layout.content_y_start_mm * pixel_per_mm;
    let width: i32 = layout.target_width(pixel_per_mm);
    let room: i32 = canvas.height - y_start;
    let height: i32 = if target_height <= room {
        target_height
    } else {
        room
    };
    Placement {
        canvas,
        kept: Rect { x: 0, y: 0, width, height },
        region: Rect { x: x_start, y: y_start, width, height },
    }
}

/// A checkerboard for the content region: its size, and its filled squares of
/// `stride` pixels.
pub fn checkered_content(layout: &CanvasLayout, pixel_per_mm: i32, stride: i32) -> (r: (Size, Vec<Rect>))
    requires
        is_pixel(layout.content_width()),
        0 <= layout.content_width() * pixel_per_mm <= i32::MAX,
        0 <= layout.height_mm * pixel_per_mm <= i32::MAX,
        stride != 0,
    ensures
        r.0.width == layout.content_width() * pixel_per_mm,
        r.0.height == layout.height_mm * pixel_per_mm,
        r.1@ == filled_squares(
            squares_along(layout.content_width() * pixel_per_mm, stride as int),
            squares_along(layout.height_mm * pixel_per_mm, stride as int),
            stride as int,
        ),
{
    let size = Size {
        width: layout.target_width(pixel_per_mm),
        height: layout.height_mm * pixel_per_mm,
    };
    (size, generate_checkered(size.height, size.width, stride))
}

/// Where the content region lies on the board, content stays on the canvas,
/// whatever its height.
pub proof fn law_content_stays_on_canvas(layout: CanvasLayout, pixel_per_mm: int, target_height: int)
    requires
        0 <= pixel_per_mm,
        0 <= target_height,
        0 <= layout.content_x_start_mm <= layout.content_x_end_mm <= layout.width_mm,
        0 <= layout.content_y_start_mm <= layout.height_mm,
    ensures
        0 <= layout.content_x_start_mm * pixel_per_mm,
        layout.content_x_start_mm * pixel_per_mm + layout.content_width() * pixel_per_mm
            <= layout.width_mm * pixel_per_mm,
        0 <= layout.content_y_start_mm * pixel_per_mm,
        0 <= kept_height(layout, pixel_per_mm, target_height) <= target_height,
        layout.content_y_start_mm * pixel_per_mm + kept_height(layout, pixel_per_mm, target_height)
            <= layout.height_mm * pixel_per_mm,
{
    let (x0, x1) = (layout.content_x_start_mm as int, layout.content_x_end_mm as int);
    let (w, h, y0) = (
        layout.width_mm as int,
        layout.height_mm as int,
        layout.content_y_start_mm as int,
    );
    assert(0 <= x0 * pixel_per_mm && x0 * pixel_per_mm + (x1 - x0) * pixel_per_mm <= w * pixel_per_mm)
        by (nonlinear_arith)
        requires
            0 <= x0 <= x1 <= w,
            0 <= pixel_per_mm,
    ;
    assert(0 <= y0 * pixel_per_mm <= h * pixel_per_mm) by (nonlinear_arith)
        requires
            0 <= y0 <= h,
            0 <= pixel_per_mm,
    ;
}

// ---- pyramid levels ----

/// Whether halving `k` times still leaves a scale above `target`. Scales are
/// binary64 numbers: after 1074 halvings the next one is 0.
pub open spec fn halving_stays_above(target: F64, k: int) -> bool {
    !target.nan() && 1 <= k <= 1074 && pow2((1074 - k) as nat) > target.value()
}

/// The number of halvings that leave a scale above `target`.
pub open spec fn is_level_count(target: F64, n: int) -> bool {
    &&& 0 <= n
    &&& forall|k: int| 1 <= k <= n ==> halving_stays_above(target, k)
    &&& !halving_stays_above(target, n + 1)
}

/// The encoding of 2^-k.
fn inverse_power(k: u64) -> (encoding: u64)
    requires
        1 <= k <= 1074,
    ensures
        encoding < 0x8000_0000_0000_0000,
        magnitude_units(encoding as nat, 0x10_0000_0000_0000) == pow2((1074 - k) as nat),
{
    proof {
        lemma2_to64();
    }
    if k <= 1022 {
        let encoding: u64 = (1023 - k) * 0x10_0000_0000_0000;
        proof {
            vstd::arithmetic::div_mod::lemma_fundamental_div_mod_converse(
                encoding as int,
                0x10_0000_0000_0000,
                1023 - k,
                0,
            );
            lemma_pow2_adds(52, (1022 - k) as nat);
            vstd::arithmetic::power2::lemma2_to64_rest();
        }
        encoding
    } else {
        let e: u64 = 1074 - k;
        proof {
            vstd::arithmetic::power2::lemma2_to64_rest();
            if e < 51 {
                lemma_pow2_strictly_increases(e as nat, 51);
            }
            vstd::bits::lemma_u64_shl_is_mul(1, e);
        }
        1u64 << e
    }
}

/// Decide how often the source is halved before it is warped, so that its scale
/// stays above `scale_target`.
pub fn pyramid_levels(scale_target: F64) -> (n: usize)
    requires
        !scale_target.nan() ==> scale_target.value() >= 0,
    ensures
        is_level_count(scale_target, n as int),
{
    if scale_target.is_nan() {
        return 0;
    }
    let target: u64 = scale_target.bits % 0x8000_0000_0000_0000;
    proof {
        let half = 0x10_0000_0000_0000nat;
        assert(magnitude_units(0, half) == 0);
        if target > 0 {
            lemma_magnitude_increases(0, target as nat, half);
        }
        assert(scale_target.value() == magnitude_units(target as nat, half));
    }
    let mut n: u64 = 0;
    while n < 1074
        invariant
            n <= 1074,
            !scale_target.nan(),
            target == scale_target.magnitude(),
            scale_target.value() == magnitude_units(target as nat, 0x10_0000_0000_0000),
            forall|k: int| 1 <= k <= n ==> halving_stays_above(scale_target, k),
        decreases 1074 - n,
    {
        let scale: u64 = inverse_power(n + 1);
        proof {
            if target < scale {
                lemma_magnitude_increases(target as nat, scale as nat, 0x10_0000_0000_0000);
            } else if scale < target {
                lemma_magnitude_increases(scale as nat, target as nat, 0x10_0000_0000_0000);
            }
        }
        if scale <= target {
            return n as usize;
        }
        n += 1;
    }
    n as usize
}

/// The scale after all halvings is above the target, and one more would not be:
/// the source is never scaled down too far, and no level is left out.
pub proof fn law_levels_unique(target: F64, n: int, m: int)
    requires
        is_level_count(target, n),
        is_level_count(target, m),
    ensures
        n == m,
{
    if n < m {
        assert(halving_stays_above(target, n + 1));
    }
    if m < n {
        assert(halving_stays_above(target, m + 1));
    }
}

/// A smaller target needs at least as many levels.
pub proof fn law_levels_monotone(a: F64, b: F64, n: int, m: int)
    requires
        !a.nan(),
        !b.nan(),
        a.value() <= b.value(),
        is_level_count(a, n),
        is_level_count(b, m),
    ensures
        m <= n,
{
    if n < m {
        assert(halving_stays_above(b, n + 1));
        assert(halving_stays_above(a, n + 1));
    }
}

// ---- correspondences ----

/// The camera pixels that a projector's light fell on, in ascending order of
/// cameras: what is mapped to the board through the cameras' homographies.
pub open spec fn queries_of(
    cameras: Map<CameraId, CameraResult>,
    queries: Seq<(CameraId, Point2f)>,
) -> bool {
    &&& ascending_keys(queries)
    &&& lists(
        cameras.map_values(|r: CameraResult| pixel_point(r.projector_position_in_camera)),
        queries,
    )
}

/// List the camera pixels that a projector's light fell on.
pub fn camera_queries(entry: &CalibrationResultEntry) -> (queries: Vec<(CameraId, Point2f)>)
    ensures
        queries_of(entry.cameras@, queries@),
{
    let entries = ordered_entries(&entry.cameras);
    let mut queries: Vec<(CameraId, Point2f)> = Vec::new();
    let mut i: usize = 0;
    while i < entries.len()
        invariant
            i <= entries.len(),
            queries@.len() == i,
            forall|j: int|
                0 <= j < i ==> #[trigger] queries@[j] == (
                    entries@[j].0,
                    pixel_point(entries@[j].1.projector_position_in_camera),
                ),
        decreases entries.len() - i,
    {
        let (id, found) = entries[i];
        queries.push((id, found.projector_position_in_camera.to_point()));
        i += 1;
    }
    proof {
        let pixels = entry.cameras@.map_values(
            |r: CameraResult| pixel_point(r.projector_position_in_camera),
        );
        assert forall|a: int| 0 <= a < queries@.len() implies pixels.contains_key(
            (#[trigger] queries@[a]).0,
        ) && pixels[queries@[a].0] == queries@[a].1 by {
            assert(entry.cameras@.contains_key(entries@[a].0));
        }
        assert forall|a: int, b: int|
            0 <= a < queries@.len() && 0 <= b < queries@.len() && (#[trigger] queries@[a]).0 == (
            #[trigger] queries@[b]).0 implies a == b by {
            assert(entries@[a].0 == entries@[b].0);
        }
        assert forall|a: int, b: int| 0 <= a < b < queries@.len() implies (#[trigger] queries@[a]).0
            < (#[trigger] queries@[b]).0 by {
            assert(entries@[a].0 < entries@[b].0);
        }
        assert forall|k: CameraId| #[trigger] pixels.contains_key(k) implies exists|a: int|
            0 <= a < queries@.len() && (#[trigger] queries@[a]).0 == k by {
            assert(entry.cameras@.contains_key(k));
            let a = choose|a: int| 0 <= a < entries@.len() && (#[trigger] entries@[a]).0 == k;
            assert(queries@[a].0 == k);
        }
    }
    queries
}

/// List the camera pixels that a projector's light fell on, of the cameras that
/// have a refined position.
pub fn refined_queries(entry: &CalibrationResultEntry, refined: &HashMap<CameraId, Point2f>) -> (queries:
    Vec<(CameraId, Point2f)>)
    ensures
        queries_of(entry.cameras@.restrict(refined@.dom()), queries@),
{
    let all = camera_queries(entry);
    let mut queries: Vec<(CameraId, Point2f)> = Vec::new();
    let ghost mut from: Seq<int> = seq![];
    let mut i: usize = 0;
    while i < all.len()
        invariant
            i <= all.len(),
            from.len() == queries@.len(),
            forall|j: int|
                0 <= j < from.len() ==> 0 <= #[trigger] from[j] < i && queries@[j] == all@[from[j]]
                    && refined@.contains_key(queries@[j].0),
            forall|j: int, k: int| 0 <= j < k < from.len() ==> from[j] < from[k],
            forall|a: int|
                0 <= a < i && refined@.contains_key((#[trigger] all@[a]).0) ==> exists|j: int|
                    0 <= j < from.len() && #[trigger] from[j] == a,
        decreases all.len() - i,
    {
        let ghost before = from;
        if refined.contains_key(&all[i].0) {
            queries.push(all[i]);
            proof {
                from = from.push(i as int);
                assert(from[from.len() - 1] == i);
            }
        }
        proof {
            assert forall|a: int|
                0 <= a < i + 1 && refined@.contains_key((#[trigger] all@[a]).0) implies exists|j: int|
                0 <= j < from.len() && #[trigger] from[j] == a by {
                if a < i {
                    let j = choose|j: int| 0 <= j < before.len() && #[trigger] before[j] == a;
                    assert(from[j] == a);
                }
            }
        }
        i += 1;
    }
    proof {
        let pixel = |r: CameraResult| pixel_point(r.projector_position_in_camera);
        let whole = entry.cameras@.map_values(pixel);
        let part = entry.cameras@.restrict(refined@.dom()).map_values(pixel);
        assert forall|j: int| 0 <= j < queries@.len() implies part.contains_key(
            (#[trigger] queries@[j]).0,
        ) && part[queries@[j].0] == queries@[j].1 by {
            assert(queries@[j] == all@[from[j]]);
            assert(whole.contains_key(all@[from[j]].0));
        }
        assert forall|j: int, k: int| 0 <= j < k < queries@.len() implies (#[trigger] queries@[j]).0
            < (#[trigger] queries@[k]).0 by {
            assert(from[j] < from[k]);
            assert(all@[from[j]].0 < all@[from[k]].0);
        }
        assert forall|c: CameraId| #[trigger] part.contains_key(c) implies exists|j: int|
            0 <= j < queries@.len() && (#[trigger] queries@[j]).0 == c by {
            assert(whole.contains_key(c));
            let a = choose|a: int| 0 <= a < all@.len() && (#[trigger] all@[a]).0 == c;
            let j = choose|j: int| 0 <= j < from.len() && #[trigger] from[j] == a;
            assert(queries@[j].0 == c);
        }
        assert forall|j: int, k: int|
            0 <= j < queries@.len() && 0 <= k < queries@.len() && (#[trigger] queries@[j]).0 == (
            #[trigger] queries@[k]).0 implies j == k by {
            if j < k {
                assert(queries@[j].0 < queries@[k].0);
            } else if k < j {
                assert(queries@[k].0 < queries@[j].0);
            }
        }
        assert(lists(part, queries@));
    }
    queries
}

/// Point correspondences between the board and a projector: `from[i]` on the
/// board belongs to `to[i]` on the projector.
#[derive(Debug)]
pub struct Correspondences {
    pub from: Vec<Point2f>,
    pub to: Vec<Point2f>,
}

/// `r` pairs the refined position of every camera with the camera's place on the
/// board, in some order of cameras.
pub open spec fn pairs_up(
    place: spec_fn(CameraId) -> Point2f,
    refined: Map<CameraId, Point2f>,
    r: Correspondences,
) -> bool {
    &&& r.from@.len() == r.to@.len()
    &&& exists|ids: Seq<CameraId>|
        #![trigger lists(refined, ids.zip_with(r.to@))]
        {
            &&& ids.len() == r.to@.len()
            &&& lists(refined, ids.zip_with(r.to@))
            &&& forall|i: int| 0 <= i < ids.len() ==> #[trigger] r.from@[i] == place(ids[i])
        }
}

/// Pair the refined positions with the cameras' places on the board that the
/// mesh gives.
pub fn mesh_correspondences(
    world_positions: &HashMap<CameraId, Point2f>,
    refined: &HashMap<CameraId, Point2f>,
) -> (r: Correspondences)
    requires
        forall|c: CameraId| #[trigger] refined@.contains_key(c) ==> world_positions@.contains_key(c),
    ensures
        pairs_up(|c: CameraId| world_positions@[c], refined@, r),
{
    let entries = hashed_entries(refined);
    let ghost mut ids: Seq<CameraId> = seq![];
    let mut from: Vec<Point2f> = Vec::new();
    let mut to: Vec<Point2f> = Vec::new();
    let mut i: usize = 0;
    while i < entries.len()
        invariant
            lists(refined@, entries@),
            forall|c: CameraId| #[trigger]
                refined@.contains_key(c) ==> world_positions@.contains_key(c),
            i <= entries.len(),
            from@.len() == i,
            to@.len() == i,
            ids.len() == i,
            forall|j: int| 0 <= j < i ==> #[trigger] ids[j] == entries@[j].0,
            forall|j: int| 0 <= j < i ==> #[trigger] to@[j] == entries@[j].1,
            forall|j: int| 0 <= j < i ==> #[trigger] from@[j] == world_positions@[ids[j]],
        decreases entries.len() - i,
    {
        let (id, position) = entries[i];
        assert(refined@.contains_key(entries@[i as int].0));
        if let Some(place) = world_positions.get(&id) {
            from.push(*place);
        }
        to.push(position);
        proof {
            ids = ids.push(id);
        }
        i += 1;
    }
    let r = Correspondences { from, to };
    assert(ids.zip_with(r.to@) =~= entries@);
    assert(lists(refined@, ids.zip_with(r.to@)));
    r
}

/// Pair the refined positions with the cameras' nominal places on the board.
pub fn nominal_correspondences(
    camera_positions: &Vec<Point2f>,
    refined: &HashMap<CameraId, Point2f>,
) -> (r: Correspondences)
    requires
        forall|c: CameraId| #[trigger] refined@.contains_key(c) ==> c < camera_positions@.len(),
    ensures
        pairs_up(|c: CameraId| camera_positions@[c as int], refined@, r),
{
    let entries = hashed_entries(refined);
    let ghost mut ids: Seq<CameraId> = seq![];
    let mut from: Vec<Point2f> = Vec::new();
    let mut to: Vec<Point2f> = Vec::new();
    let mut i: usize = 0;
    while i < entries.len()
        invariant
            lists(refined@, entries@),
            forall|c: CameraId| #[trigger] refined@.contains_key(c) ==> c < camera_positions@.len(),
            i <= entries.len(),
            from@.len() == i,
            to@.len() == i,
            ids.len() == i,
            forall|j: int| 0 <= j < i ==> #[trigger] ids[j] == entries@[j].0,
            forall|j: int| 0 <= j < i ==> #[trigger] to@[j] == entries@[j].1,
            forall|j: int| 0 <= j < i ==> #[trigger] from@[j] == camera_positions@[ids[j] as int],
        decreases entries.len() - i,
    {
        let (id, position) = entries[i];
        assert(refined@.contains_key(entries@[i as int].0));
        from.push(camera_positions[id]);
        to.push(position);
        proof {
            ids = ids.push(id);
        }
        i += 1;
    }
    let r = Correspondences { from, to };
    assert(ids.zip_with(r.to@) =~= entries@);
    assert(lists(refined@, ids.zip_with(r.to@)));
    r
}

/// Every refined camera contributes exactly one correspondence.
pub proof fn law_every_camera_contributes(
    place: spec_fn(CameraId) -> Point2f,
    refined: Map<CameraId, Point2f>,
    r: Correspondences,
)
    requires
        pairs_up(place, refined, r),
    ensures
        r.from@.len() == refined.dom().len(),
        r.to@.len() == refined.dom().len(),
{
    let ids = choose|ids: Seq<CameraId>|
        #![trigger lists(refined, ids.zip_with(r.to@))]
        {
            &&& ids.len() == r.to@.len()
            &&& lists(refined, ids.zip_with(r.to@))
            &&& forall|i: int| 0 <= i < ids.len() ==> #[trigger] r.from@[i] == place(ids[i])
        };
    law_listing_is_complete(refined, ids.zip_with(r.to@));
}

/// Content lies between the two edges of the layout. It keeps its height as far as the
/// canvas has room below its upper edge, and loses the rest at the bottom.
pub proof fn law_content_fills_its_place(
    layout: &CanvasLayout,
    pixel_per_mm: i32,
    target_height: i32,
    r: Placement,
)
    requires
        call_ensures(write_to_canvas, (layout, pixel_per_mm, target_height), r),
    ensures
        r.canvas.width == layout.width_mm * pixel_per_mm,
        r.canvas.height == layout.height_mm * pixel_per_mm,
        r.region.x == layout.content_x_start_mm * pixel_per_mm,
        r.region.x + r.region.width == layout.content_x_end_mm * pixel_per_mm,
        r.region.y == layout.content_y_start_mm * pixel_per_mm,
        r.region.height <= target_height,
        r.region.y + r.region.height <= r.canvas.height,
        r.region.height == target_height || r.region.y + r.region.height == r.canvas.height,
        r.kept.x == 0,
        r.kept.y == 0,
        r.kept.width == r.region.width,
        r.kept.height == r.region.height,
{
    assert((layout.content_x_end_mm - layout.content_x_start_mm) * pixel_per_mm
        == layout.content_x_end_mm * pixel_per_mm - layout.content_x_start_mm * pixel_per_mm)
        by (nonlinear_arith);
}

/// The width that content is scaled to is that of its place on the canvas.
pub proof fn law_target_fits_its_place(
    layout: &CanvasLayout,
    pixel_per_mm: i32,
    target_height: i32,
    r: Placement,
    width_mm: i32,
    width: i32,
)
    requires
        call_ensures(write_to_canvas, (layout, pixel_per_mm, target_height), r),
        call_ensures(CanvasLayout::content_width_mm, (layout,), width_mm),
        call_ensures(CanvasLayout::target_width, (layout, pixel_per_mm), width),
    ensures
        width == r.region.width,
        width_mm == layout.content_x_end_mm - layout.content_x_start_mm,
{
}

/// A checkered board is as wide as the content and as high as the canvas; a pixel of it
/// is lit exactly if it lies in a square that fits whole and whose column and row are
/// together even.
pub proof fn law_checkered_content(
    layout: &CanvasLayout,
    pixel_per_mm: i32,
    stride: i32,
    r: (Size, Vec<Rect>),
    px: int,
    py: int,
)
    requires
        call_ensures(checkered_content, (layout, pixel_per_mm, stride), r),
        r.0.width >= 0,
        r.0.height >= 0,
        0 < stride,
        0 <= px,
        0 <= py,
    ensures
        r.0.width == (layout.content_x_end_mm - layout.content_x_start_mm) * pixel_per_mm,
        r.0.height == layout.height_mm * pixel_per_mm,
        ({
            let (column, row) = (px / (stride as int), py / (stride as int));
            covered(r.1@, px, py) <==> (column + 1) * stride <= r.0.width && (row + 1) * stride
                <= r.0.height && (column + row) % 2 == 0
        }),
{
    let s = stride as int;
    lemma_whole_squares(r.0.width as int, s, px / s);
    lemma_whole_squares(r.0.height as int, s, py / s);
    law_checkered_alternates(r.0.width as int / s, r.0.height as int / s, s, px, py);
}

/// An image is halved as often as its size stays above the target, where the full size
/// is 1: after every halving that is made it does, after one more it would not, or the
/// size could no longer be told from 0. `value` counts in units of which 1 has 2^1074.
pub proof fn law_halved_while_above(target: F64, n: usize, k: nat)
    requires
        call_ensures(pyramid_levels, (target,), n),
        !target.nan(),
    ensures
        n <= 1074,
        1 <= k <= n ==> pow2((1074 - k) as nat) > target.value(),
        n < 1074 ==> pow2((1073 - n) as nat) <= target.value(),
{
    assert(n > 0 ==> halving_stays_above(target, n as int));
    if 1 <= k <= n {
        assert(halving_stays_above(target, k as int));
    }
    assert(!halving_stays_above(target, n + 1));
}

/// A target that is no number lets an image be.
pub proof fn law_no_target_no_halving(target: F64, n: usize)
    requires
        call_ensures(pyramid_levels, (target,), n),
        target.nan(),
    ensures
        n == 0,
{
    if n > 0 {
        assert(halving_stays_above(target, 1));
    }
}

/// Every camera of a projector is asked for once, by the pixel at which it saw the
/// projector, each coordinate as the nearest number; in the order of the cameras.
pub proof fn law_every_camera_is_queried(
    entry: &CalibrationResultEntry,
    queries: Vec<(CameraId, Point2f)>,
    c: CameraId,
)
    requires
        call_ensures(camera_queries, (entry,), queries),
    ensures
        entry.cameras@.contains_key(c) <==> exists|i: int|
            0 <= i < queries@.len() && (#[trigger] queries@[i]).0 == c,
        forall|i: int|
            0 <= i < queries@.len() && (#[trigger] queries@[i]).0 == c ==> {
                let pixel = entry.cameras@[c].projector_position_in_camera;
                whole_rounds_to(pixel.x as int, queries@[i].1.x) && whole_rounds_to(
                    pixel.y as int,
                    queries@[i].1.y,
                )
            },
        forall|i: int, j: int|
            0 <= i < j < queries@.len() ==> (#[trigger] queries@[i]).0 < (#[trigger] queries@[j]).0,
{
    lemma_queries(entry.cameras@, queries@, c);
}

/// What queries of cameras are.
proof fn lemma_queries(
    cameras: Map<CameraId, CameraResult>,
    queries: Seq<(CameraId, Point2f)>,
    c: CameraId,
)
    requires
        queries_of(cameras, queries),
    ensures
        cameras.contains_key(c) <==> exists|i: int|
            0 <= i < queries.len() && (#[trigger] queries[i]).0 == c,
        forall|i: int|
            0 <= i < queries.len() && (#[trigger] queries[i]).0 == c ==> {
                let pixel = cameras[c].projector_position_in_camera;
                whole_rounds_to(pixel.x as int, queries[i].1.x) && whole_rounds_to(
                    pixel.y as int,
                    queries[i].1.y,
                )
            },
{
    let m = cameras.map_values(|r: CameraResult| pixel_point(r.projector_position_in_camera));
    assert(m.contains_key(c) <==> cameras.contains_key(c));
    law_nearest_single_rounds(cameras[c].projector_position_in_camera.x);
    law_nearest_single_rounds(cameras[c].projector_position_in_camera.y);
}

/// Every camera of a projector that has a refined position is asked for once, and no
/// other, by the pixel at which it saw the projector.
pub proof fn law_every_refined_camera_is_queried(
    entry: &CalibrationResultEntry,
    refined: &HashMap<CameraId, Point2f>,
    queries: Vec<(CameraId, Point2f)>,
    c: CameraId,
)
    requires
        call_ensures(refined_queries, (entry, refined), queries),
    ensures
        entry.cameras@.contains_key(c) && refined@.contains_key(c) <==> exists|i: int|
            0 <= i < queries@.len() && (#[trigger] queries@[i]).0 == c,
        forall|i: int|
            0 <= i < queries@.len() && (#[trigger] queries@[i]).0 == c ==> {
                let pixel = entry.cameras@[c].projector_position_in_camera;
                whole_rounds_to(pixel.x as int, queries@[i].1.x) && whole_rounds_to(
                    pixel.y as int,
                    queries@[i].1.y,
                )
            },
        forall|i: int, j: int|
            0 <= i < j < queries@.len() ==> (#[trigger] queries@[i]).0 < (#[trigger] queries@[j]).0,
{
    let cameras = entry.cameras@.restrict(refined@.dom());
    lemma_queries(cameras, queries@, c);
    assert(cameras.contains_key(c) <==> entry.cameras@.contains_key(c) && refined@.contains_key(c));
}

/// Each refined camera gives one pair, of where it stands in the world and where it was
/// refined to, in this order; and every pair is that of a camera.
pub proof fn law_mesh_pairs(
    world: &HashMap<CameraId, Point2f>,
    refined: &HashMap<CameraId, Point2f>,
    r: Correspondences,
    c: CameraId,
    i: int,
)
    requires
        call_ensures(mesh_correspondences, (world, refined), r),
    ensures
        r.from@.len() == refined@.dom().len(),
        r.to@.len() == refined@.dom().len(),
        refined@.contains_key(c) ==> exists|j: int|
            0 <= j < r.to@.len() && #[trigger] r.from@[j] == world@[c] && r.to@[j] == refined@[c],
        0 <= i < r.to@.len() ==> exists|d: CameraId| #[trigger]
            refined@.contains_key(d) && r.from@[i] == world@[d] && r.to@[i] == refined@[d],
{
    let place = |k: CameraId| world@[k];
    law_every_camera_contributes(place, refined@, r);
    lemma_pairs(place, refined@, r, c, i);
}

/// The same of the places at which cameras stand by design.
pub proof fn law_nominal_pairs(
    places: &Vec<Point2f>,
    refined: &HashMap<CameraId, Point2f>,
    r: Correspondences,
    c: CameraId,
    i: int,
)
    requires
        call_ensures(nominal_correspondences, (places, refined), r),
    ensures
        r.from@.len() == refined@.dom().len(),
        r.to@.len() == refined@.dom().len(),
        refined@.contains_key(c) ==> exists|j: int|
            0 <= j < r.to@.len() && #[trigger] r.from@[j] == places@[c as int] && r.to@[j]
                == refined@[c],
        0 <= i < r.to@.len() ==> exists|d: CameraId| #[trigger]
            refined@.contains_key(d) && r.from@[i] == places@[d as int] && r.to@[i] == refined@[d],
{
    let place = |k: CameraId| places@[k as int];
    law_every_camera_contributes(place, refined@, r);
    lemma_pairs(place, refined@, r, c, i);
}

/// Pairs belong to cameras and cameras to pairs.
proof fn lemma_pairs(
    place: spec_fn(CameraId) -> Point2f,
    refined: Map<CameraId, Point2f>,
    r: Correspondences,
    c: CameraId,
    i: int,
)
    requires
        pairs_up(place, refined, r),
    ensures
        refined.contains_key(c) ==> exists|j: int|
            0 <= j < r.to@.len() && #[trigger] r.from@[j] == place(c) && r.to@[j] == refined[c],
        0 <= i < r.to@.len() ==> exists|d: CameraId| #[trigger]
            refined.contains_key(d) && r.from@[i] == place(d) && r.to@[i] == refined[d],
{
    let ids = choose|ids: Seq<CameraId>|
        #![trigger lists(refined, ids.zip_with(r.to@))]
        {
            &&& ids.len() == r.to@.len()
            &&& lists(refined, ids.zip_with(r.to@))
            &&& forall|i: int| 0 <= i < ids.len() ==> #[trigger] r.from@[i] == place(ids[i])
        };
    let entries = ids.zip_with(r.to@);
    if refined.contains_key(c) {
        let j = choose|j: int| 0 <= j < entries.len() && (#[trigger] entries[j]).0 == c;
        assert(entries[j] == (ids[j], r.to@[j]));
        assert(r.from@[j] == place(ids[j]));
    }
    if 0 <= i < r.to@.len() {
        assert(entries[i] == (ids[i], r.to@[i]));
        assert(r.from@[i] == place(ids[i]));
        assert(refined.contains_key(ids[i]));
    }
}

} // verus!
