//! The optical-center compensation mesh: how it is accumulated, and which points
//! a camera's homography is fitted to.

use std::collections::HashMap;

use vstd::prelude::*;
use vstd::std_specs::iter::IteratorSpec;
use vstd::string::*;

use crate::external_calibrator::CANCEL_KEY;
use crate::listing::{hashed_entries, lists, ordered_entries};
use crate::text::{decimal, law_decimal_reads_back, push_decimal, reads_as};
use crate::types::{
    pixel_point, CalibrationResultEntry, CameraId, CameraMeshPointPair, CameraResult, Point2f, Point2i,
};

verus! {

/// The mesh: the point pairs of each embedded camera.
pub type CameraMesh = HashMap<CameraId, Vec<CameraMeshPointPair>>;

// ---- fitting ----

/// What one camera's homography, from camera pixels to places on the board, is
/// fitted to.
#[derive(Debug)]
pub struct MeshFit {
    pub camera: CameraId,
    /// Camera-image pixels.
    pub camera_points: Vec<Point2f>,
    /// The places on the board (mm) that belong to them.
    pub world_points: Vec<Point2f>,
}

/// `fit` is to the given pairs, in their order.
pub open spec fn fits_pairs(fit: MeshFit, pairs: Seq<CameraMeshPointPair>) -> bool {
    &&& fit.camera_points@ == pairs.map_values(
        |p: CameraMeshPointPair| pixel_point(p.projector_position_in_embedded_camera),
    )
    &&& fit.world_points@ == pairs.map_values(
        |p: CameraMeshPointPair| p.effective_camera_position_in_world,
    )
}

/// `fits` has one fit for each camera of the mesh.
pub open spec fn fits_of(mesh: Map<CameraId, Vec<CameraMeshPointPair>>, fits: Seq<MeshFit>) -> bool {
    &&& forall|i: int|
        0 <= i < fits.len() ==> mesh.contains_key((#[trigger] fits[i]).camera) && fits_pairs(
            fits[i],
            mesh[fits[i].camera]@,
        )
    &&& forall|i: int, j: int|
        0 <= i < fits.len() && 0 <= j < fits.len() && (#[trigger] fits[i]).camera == (
        #[trigger] fits[j]).camera ==> i == j
    &&& forall|c: CameraId| #[trigger]
        mesh.contains_key(c) ==> exists|i: int| 0 <= i < fits.len() && (#[trigger] fits[i]).camera == c
}

/// The fit of one camera.
fn fit_camera(camera: CameraId, pairs: &Vec<CameraMeshPointPair>) -> (fit: MeshFit)
    ensures
        fit.camera == camera,
        fits_pairs(fit, pairs@),
{
    let mut camera_points: Vec<Point2f> = Vec::new();
    let mut world_points: Vec<Point2f> = Vec::new();
    let mut i: usize = 0;
    while i < pairs.len()
        invariant
            i <= pairs.len(),
            camera_points@ =~= pairs@.take(i as int).map_values(
                |p: CameraMeshPointPair| pixel_point(p.projector_position_in_embedded_camera),
            ),
            world_points@ =~= pairs@.take(i as int).map_values(
                |p: CameraMeshPointPair| p.effective_camera_position_in_world,
            ),
        decreases pairs.len() - i,
    {
        camera_points.push(pairs[i].projector_position_in_embedded_camera.to_point());
        world_points.push(pairs[i].effective_camera_position_in_world);
        i += 1;
    }
    assert(pairs@.take(i as int) =~= pairs@);
    MeshFit { camera, camera_points, world_points }
}

/// Build, per embedded camera, what the homography from camera-image to world
/// coordinates is fitted to.
pub fn load_camera_mesh_homographies(mesh: &CameraMesh) -> (fits: Vec<MeshFit>)
    ensures
        fits_of(mesh@, fits@),
{
    let mut fits: Vec<MeshFit> = Vec::new();
    let iter = mesh.iter();
    let ghost all = iter.remaining();
    for (camera, pairs) in it: iter
        invariant
            it.seq() == all,
            fits@.len() == it.index(),
            forall|i: int|
                0 <= i < it.index() ==> (#[trigger] fits@[i]).camera == *all[i].0 && fits_pairs(
                    fits@[i],
                    all[i].1@,
                ),
    {
        fits.push(fit_camera(*camera, pairs));
    }
    proof {
        assert forall|i: int| 0 <= i < fits@.len() implies mesh@.contains_key(
            (#[trigger] fits@[i]).camera,
        ) && fits_pairs(fits@[i], mesh@[fits@[i].camera]@) by {
            assert(mesh@.contains_key(*all[i].0) && mesh@[*all[i].0] == *all[i].1);
        }
        assert forall|i: int, j: int|
            0 <= i < fits@.len() && 0 <= j < fits@.len() && (#[trigger] fits@[i]).camera == (
            #[trigger] fits@[j]).camera implies i == j by {
            assert(mesh@[*all[i].0] == *all[i].1 && mesh@[*all[j].0] == *all[j].1);
            assert(all[i] == all[j]);
        }
        assert forall|c: CameraId| #[trigger] mesh@.contains_key(c) implies exists|i: int|
            0 <= i < fits@.len() && (#[trigger] fits@[i]).camera == c by {
            assert(all.contains((&c, &mesh@[c])));
            let i = choose|i: int| 0 <= i < all.len() && all[i] == (&c, &mesh@[c]);
            assert(fits@[i].camera == c);
        }
    }
    fits
}

// ---- accumulating ----

/// What a projector position gave for one camera.
#[derive(Clone, Copy, Debug, PartialEq, Eq, Structural)]
pub struct ProjectorImageResult {
    pub projector_position_in_embedded_camera: Point2i,
    pub embedded_camera_position_in_projector: Point2f,
}

/// The cameras that both see the projector and were refined.
pub open spec fn seen_and_refined(
    cameras: Map<CameraId, CameraResult>,
    refined: Map<CameraId, Point2f>,
) -> Map<CameraId, ProjectorImageResult> {
    Map::new(
        |c: CameraId| cameras.contains_key(c) && refined.contains_key(c),
        |c: CameraId|
            ProjectorImageResult {
                projector_position_in_embedded_camera: cameras[c].projector_position_in_camera,
                embedded_camera_position_in_projector: refined[c],
            },
    )
}

/// Join the coarse result of a projector with its refined positions.
pub fn join_refined(entry: &CalibrationResultEntry, refined: &HashMap<CameraId, Point2f>) -> (r: HashMap<
    CameraId,
    ProjectorImageResult,
>)
    ensures
        r@ == seen_and_refined(entry.cameras@, refined@),
{
    let entries = ordered_entries(&entry.cameras);
    let ghost all = seen_and_refined(entry.cameras@, refined@);
    let mut r: HashMap<CameraId, ProjectorImageResult> = HashMap::new();
    let mut i: usize = 0;
    while i < entries.len()
        invariant
            lists(entry.cameras@, entries@),
            all == seen_and_refined(entry.cameras@, refined@),
            i <= entries.len(),
            forall|c: CameraId| #[trigger]
                r@.contains_key(c) ==> all.contains_key(c) && r@[c] == all[c],
            forall|j: int|
                0 <= j < i && all.contains_key((#[trigger] entries@[j]).0) ==> r@.contains_key(
                    entries@[j].0,
                ),
        decreases entries.len() - i,
    {
        let (id, found) = entries[i];
        assert(entry.cameras@.contains_key(entries@[i as int].0));
        if let Some(position) = refined.get(&id) {
            r.insert(
                id,
                ProjectorImageResult {
                    projector_position_in_embedded_camera: found.projector_position_in_camera,
                    embedded_camera_position_in_projector: *position,
                },
            );
        }
        i += 1;
    }
    proof {
        assert forall|c: CameraId| #[trigger] all.contains_key(c) implies r@.contains_key(c) by {
            assert(entry.cameras@.contains_key(c));
            let j = choose|j: int| 0 <= j < entries@.len() && (#[trigger] entries@[j]).0 == c;
            assert(all.contains_key(entries@[j].0));
        }
        assert(r@ =~= all);
    }
    r
}

/// The refined positions of cameras, without the rest.
pub fn positions_in_projector(results: &HashMap<CameraId, ProjectorImageResult>) -> (r: HashMap<
    CameraId,
    Point2f,
>)
    ensures
        r@ == results@.map_values(
            |v: ProjectorImageResult| v.embedded_camera_position_in_projector,
        ),
{
    let entries = hashed_entries(results);
    let ghost all = results@.map_values(
        |v: ProjectorImageResult| v.embedded_camera_position_in_projector,
    );
    let mut r: HashMap<CameraId, Point2f> = HashMap::new();
    let mut i: usize = 0;
    while i < entries.len()
        invariant
            lists(results@, entries@),
            all == results@.map_values(
                |v: ProjectorImageResult| v.embedded_camera_position_in_projector,
            ),
            i <= entries.len(),
            forall|c: CameraId| #[trigger]
                r@.contains_key(c) ==> all.contains_key(c) && r@[c] == all[c],
            forall|j: int| 0 <= j < i ==> r@.contains_key((#[trigger] entries@[j]).0),
        decreases entries.len() - i,
    {
        let (id, v) = entries[i];
        assert(results@.contains_key(entries@[i as int].0));
        r.insert(id, v.embedded_camera_position_in_projector);
        i += 1;
    }
    proof {
        assert forall|c: CameraId| #[trigger] all.contains_key(c) implies r@.contains_key(c) by {
            assert(results@.contains_key(c));
            let j = choose|j: int| 0 <= j < entries@.len() && (#[trigger] entries@[j]).0 == c;
            assert(r@.contains_key(entries@[j].0));
        }
        assert(r@ =~= all);
    }
    r
}

/// The point pairs of a camera, none if the mesh lacks it.
pub open spec fn pairs_of(mesh: Map<CameraId, Vec<CameraMeshPointPair>>, c: CameraId) -> Seq<
    CameraMeshPointPair,
> {
    if mesh.contains_key(c) {
        mesh[c]@
    } else {
        seq![]
    }
}

/// The point pair that a capture adds for a camera.
pub open spec fn new_pair(
    images: Map<CameraId, ProjectorImageResult>,
    worlds: Map<CameraId, Point2f>,
    c: CameraId,
) -> CameraMeshPointPair {
    CameraMeshPointPair {
        projector_position_in_embedded_camera: images[c].projector_position_in_embedded_camera,
        effective_camera_position_in_world: worlds[c],
    }
}

/// `after` is `before` with one more pair for each camera that was placed on the
/// board, and nothing else.
pub open spec fn extended(
    before: Map<CameraId, Vec<CameraMeshPointPair>>,
    images: Map<CameraId, ProjectorImageResult>,
    worlds: Map<CameraId, Point2f>,
    after: Map<CameraId, Vec<CameraMeshPointPair>>,
) -> bool {
    &&& forall|c: CameraId| #[trigger]
        after.contains_key(c) <==> before.contains_key(c) || worlds.contains_key(c)
    &&& forall|c: CameraId| #[trigger]
        worlds.contains_key(c) ==> pairs_of(after, c) == pairs_of(before, c).push(
            new_pair(images, worlds, c),
        )
    &&& forall|c: CameraId|
        !worlds.contains_key(c) ==> #[trigger] pairs_of(after, c) == pairs_of(before, c)
}

/// Accumulate the point pairs of one projector position.
pub fn add_point_pairs(
    mesh: &mut CameraMesh,
    images: &HashMap<CameraId, ProjectorImageResult>,
    worlds: &HashMap<CameraId, Point2f>,
)
    requires
        forall|c: CameraId| #[trigger] worlds@.contains_key(c) ==> images@.contains_key(c),
    ensures
        extended(old(mesh)@, images@, worlds@, final(mesh)@),
{
    let ghost before = mesh@;
    let entries = hashed_entries(worlds);
    let mut i: usize = 0;
    while i < entries.len()
        invariant
            before == old(mesh)@,
            lists(worlds@, entries@),
            forall|c: CameraId| #[trigger] worlds@.contains_key(c) ==> images@.contains_key(c),
            i <= entries.len(),
            forall|c: CameraId| #[trigger]
                mesh@.contains_key(c) <==> before.contains_key(c) || exists|j: int|
                    0 <= j < i && (#[trigger] entries@[j]).0 == c,
            forall|j: int|
                0 <= j < i ==> pairs_of(mesh@, (#[trigger] entries@[j]).0) == pairs_of(
                    before,
                    entries@[j].0,
                ).push(new_pair(images@, worlds@, entries@[j].0)),
            forall|c: CameraId|
                (forall|j: int| 0 <= j < i ==> (#[trigger] entries@[j]).0 != c) ==> #[trigger] pairs_of(
                    mesh@,
                    c,
                ) == pairs_of(before, c),
        decreases entries.len() - i,
    {
        let (id, place) = entries[i];
        assert(worlds@.contains_key(entries@[i as int].0));
        let ghost earlier = mesh@;
        proof {
            assert forall|j: int| 0 <= j < i implies (#[trigger] entries@[j]).0 != id by {
                assert(entries@[i as int].0 == id);
            }
            assert(pairs_of(earlier, id) == pairs_of(before, id));
        }
        let mut pairs: Vec<CameraMeshPointPair> = match mesh.remove(&id) {
            Some(pairs) => pairs,
            None => Vec::new(),
        };
        assert(pairs@ =~= pairs_of(earlier, id));
        if let Some(image) = images.get(&id) {
            pairs.push(
                CameraMeshPointPair {
                    projector_position_in_embedded_camera:
                        image.projector_position_in_embedded_camera,
                    effective_camera_position_in_world: place,
                },
            );
        }
        mesh.insert(id, pairs);
        proof {
            assert forall|c: CameraId| c != id implies #[trigger] pairs_of(mesh@, c) == pairs_of(
                earlier,
                c,
            ) by {}
            assert forall|c: CameraId| #[trigger] mesh@.contains_key(c) implies before.contains_key(c)
                || exists|j: int| 0 <= j < i + 1 && (#[trigger] entries@[j]).0 == c by {
                if c == id {
                    assert(entries@[i as int].0 == c);
                } else {
                    assert(earlier.contains_key(c));
                }
            }
            assert forall|c: CameraId|
                before.contains_key(c) || exists|j: int|
                    0 <= j < i + 1 && (#[trigger] entries@[j]).0 == c implies #[trigger] mesh@.contains_key(
                c,
            ) by {
                if c != id {
                    if !before.contains_key(c) {
                        let j = choose|j: int| 0 <= j < i + 1 && (#[trigger] entries@[j]).0 == c;
                        assert(j < i);
                    }
                    assert(earlier.contains_key(c));
                }
            }
            assert forall|j: int| 0 <= j < i + 1 implies pairs_of(mesh@, (#[trigger] entries@[j]).0)
                == pairs_of(before, entries@[j].0).push(
                new_pair(images@, worlds@, entries@[j].0),
            ) by {
                if j < i {
                    assert(entries@[j].0 != id);
                }
            }
            assert forall|c: CameraId|
                (forall|j: int| 0 <= j < i + 1 ==> (#[trigger] entries@[j]).0 != c) implies
                #[trigger] pairs_of(mesh@, c) == pairs_of(before, c) by {
                assert(entries@[i as int].0 != c);
                assert(pairs_of(earlier, c) == pairs_of(before, c));
            }
        }
        i += 1;
    }
    proof {
        assert forall|c: CameraId| #[trigger] worlds@.contains_key(c) implies pairs_of(mesh@, c)
            == pairs_of(before, c).push(new_pair(images@, worlds@, c)) && mesh@.contains_key(c) by {
            let j = choose|j: int| 0 <= j < entries@.len() && (#[trigger] entries@[j]).0 == c;
            assert(pairs_of(mesh@, entries@[j].0) == pairs_of(before, c).push(
                new_pair(images@, worlds@, c),
            ));
        }
        assert forall|c: CameraId| #[trigger] mesh@.contains_key(c) implies before.contains_key(c)
            || worlds@.contains_key(c) by {
            if !before.contains_key(c) {
                let j = choose|j: int| 0 <= j < i && (#[trigger] entries@[j]).0 == c;
                assert(worlds@.contains_key(entries@[j].0));
            }
        }
    }
}

/// The header of a camera's debug image.
pub fn camera_label(camera: CameraId) -> (label: String)
    ensures
        label@ == "Camera "@ + decimal(camera as nat),
{
    let mut label = String::new();
    label.append("Camera ");
    push_decimal(&mut label, camera as u64);
    assert(label@ =~= "Camera "@ + decimal(camera as nat));
    label
}

/// Whether the operator, who has seen the mesh so far, ends the session.
pub fn ends_session(key: i32) -> (r: bool)
    ensures
        r == (key == CANCEL_KEY),
{
    key == CANCEL_KEY
}

// ---- laws ----

/// No pair is ever lost: a capture only appends.
pub proof fn law_mesh_only_grows(
    before: Map<CameraId, Vec<CameraMeshPointPair>>,
    images: Map<CameraId, ProjectorImageResult>,
    worlds: Map<CameraId, Point2f>,
    after: Map<CameraId, Vec<CameraMeshPointPair>>,
    c: CameraId,
)
    requires
        extended(before, images, worlds, after),
    ensures
        pairs_of(before, c).len() <= pairs_of(after, c).len() <= pairs_of(before, c).len() + 1,
        pairs_of(after, c).take(pairs_of(before, c).len() as int) == pairs_of(before, c),
{
    if worlds.contains_key(c) {
        assert(pairs_of(after, c) == pairs_of(before, c).push(new_pair(images, worlds, c)));
    } else {
        assert(pairs_of(after, c) == pairs_of(before, c));
    }
    assert(pairs_of(after, c).take(pairs_of(before, c).len() as int) =~= pairs_of(before, c));
}

/// What a camera's homography is fitted to pairs each pixel with its own place.
pub proof fn law_fit_is_paired(fit: MeshFit, pairs: Seq<CameraMeshPointPair>, i: int)
    requires
        fits_pairs(fit, pairs),
        0 <= i < pairs.len(),
    ensures
        fit.camera_points@.len() == fit.world_points@.len(),
        fit.camera_points@[i] == pixel_point(pairs[i].projector_position_in_embedded_camera),
        fit.world_points@[i] == pairs[i].effective_camera_position_in_world,
{
}

/// A position adds one pair to each camera whose place on the board was found: the
/// camera pixel that saw the projector, as it is, and that place. Pairs that were
/// there stay, in front of it, and no other camera changes.
pub proof fn law_pairs_are_appended(
    mesh: &mut CameraMesh,
    images: &HashMap<CameraId, ProjectorImageResult>,
    worlds: &HashMap<CameraId, Point2f>,
    c: CameraId,
)
    requires
        call_ensures(add_point_pairs, (mesh, images, worlds), ()),
    ensures
        worlds@.contains_key(c) ==> {
            let after = final(mesh)@[c]@;
            let last = after[after.len() - 1];
            let pixel = images@[c].projector_position_in_embedded_camera;
            &&& final(mesh)@.contains_key(c)
            &&& after.len() > 0
            &&& last.projector_position_in_embedded_camera.x == pixel.x
            &&& last.projector_position_in_embedded_camera.y == pixel.y
            &&& last.effective_camera_position_in_world.x == worlds@[c].x
            &&& last.effective_camera_position_in_world.y == worlds@[c].y
            &&& old(mesh)@.contains_key(c) ==> after.len() == old(mesh)@[c]@.len() + 1
                && after.take(after.len() - 1) == old(mesh)@[c]@
            &&& !old(mesh)@.contains_key(c) ==> after.len() == 1
        },
        !worlds@.contains_key(c) ==> (final(mesh)@.contains_key(c) <==> old(mesh)@.contains_key(c)),
        !worlds@.contains_key(c) && old(mesh)@.contains_key(c) ==> final(mesh)@[c]@ == old(mesh)@[c]@,
{
    assert(final(mesh)@.contains_key(c) <==> old(mesh)@.contains_key(c) || worlds@.contains_key(c));
    if worlds@.contains_key(c) {
        let after = final(mesh)@[c]@;
        assert(pairs_of(final(mesh)@, c) == after);
        if old(mesh)@.contains_key(c) {
            assert(after.take(after.len() - 1) =~= old(mesh)@[c]@);
        }
    } else {
        assert(pairs_of(final(mesh)@, c) == pairs_of(old(mesh)@, c));
    }
}

/// A camera is joined exactly if it saw the projector and was refined: with the pixel
/// at which it saw the projector, and its refined position in the projector image.
pub proof fn law_joined_are_seen_and_refined(
    entry: &CalibrationResultEntry,
    refined: &HashMap<CameraId, Point2f>,
    r: HashMap<CameraId, ProjectorImageResult>,
    c: CameraId,
)
    requires
        call_ensures(join_refined, (entry, refined), r),
    ensures
        r@.contains_key(c) <==> entry.cameras@.contains_key(c) && refined@.contains_key(c),
        r@.contains_key(c) ==> {
            let (pixel, seen) = (
                r@[c].projector_position_in_embedded_camera,
                entry.cameras@[c].projector_position_in_camera,
            );
            let (place, fine) = (r@[c].embedded_camera_position_in_projector, refined@[c]);
            pixel.x == seen.x && pixel.y == seen.y && place.x == fine.x && place.y == fine.y
        },
{
}

/// Every camera that was joined is looked for at its refined position.
pub proof fn law_positions_are_refined(
    results: &HashMap<CameraId, ProjectorImageResult>,
    r: HashMap<CameraId, Point2f>,
    c: CameraId,
)
    requires
        call_ensures(positions_in_projector, (results,), r),
    ensures
        r@.contains_key(c) <==> results@.contains_key(c),
        r@.contains_key(c) ==> r@[c].x == results@[c].embedded_camera_position_in_projector.x
            && r@[c].y == results@[c].embedded_camera_position_in_projector.y,
{
}

/// Every camera of the mesh gets one fit, to all its pairs in their order, from camera
/// pixels to places on the board.
pub proof fn law_every_camera_is_fitted(mesh: &CameraMesh, fits: Vec<MeshFit>, c: CameraId)
    requires
        call_ensures(load_camera_mesh_homographies, (mesh,), fits),
    ensures
        mesh@.contains_key(c) <==> exists|i: int|
            0 <= i < fits@.len() && (#[trigger] fits@[i]).camera == c,
        forall|i: int, j: int|
            0 <= i < fits@.len() && 0 <= j < fits@.len() && (#[trigger] fits@[i]).camera == (
            #[trigger] fits@[j]).camera ==> i == j,
        forall|i: int|
            0 <= i < fits@.len() ==> {
                let fit = #[trigger] fits@[i];
                let pairs = mesh@[fit.camera]@;
                &&& fit.camera_points@.len() == pairs.len()
                &&& fit.world_points@.len() == pairs.len()
                &&& forall|k: int|
                    0 <= k < pairs.len() ==> {
                        let pixel = pairs[k].projector_position_in_embedded_camera;
                        &&& crate::float_bits::whole_rounds_to(
                            pixel.x as int,
                            (#[trigger] fit.camera_points@[k]).x,
                        )
                        &&& crate::float_bits::whole_rounds_to(
                            pixel.y as int,
                            fit.camera_points@[k].y,
                        )
                        &&& fit.world_points@[k].x == pairs[k].effective_camera_position_in_world.x
                        &&& fit.world_points@[k].y == pairs[k].effective_camera_position_in_world.y
                    }
            },
{
    assert forall|i: int| 0 <= i < fits@.len() implies ({
        let fit = #[trigger] fits@[i];
        let pairs = mesh@[fit.camera]@;
        &&& fit.camera_points@.len() == pairs.len()
        &&& fit.world_points@.len() == pairs.len()
        &&& forall|k: int|
            0 <= k < pairs.len() ==> {
                let pixel = pairs[k].projector_position_in_embedded_camera;
                &&& crate::float_bits::whole_rounds_to(
                    pixel.x as int,
                    (#[trigger] fit.camera_points@[k]).x,
                )
                &&& crate::float_bits::whole_rounds_to(pixel.y as int, fit.camera_points@[k].y)
                &&& fit.world_points@[k].x == pairs[k].effective_camera_position_in_world.x
                &&& fit.world_points@[k].y == pairs[k].effective_camera_position_in_world.y
            }
    }) by {
        let fit = fits@[i];
        let pairs = mesh@[fit.camera]@;
        assert(fits_pairs(fit, pairs));
        assert forall|k: int| 0 <= k < pairs.len() implies ({
            let pixel = pairs[k].projector_position_in_embedded_camera;
            &&& crate::float_bits::whole_rounds_to(
                pixel.x as int,
                (#[trigger] fit.camera_points@[k]).x,
            )
            &&& crate::float_bits::whole_rounds_to(pixel.y as int, fit.camera_points@[k].y)
            &&& fit.world_points@[k].x == pairs[k].effective_camera_position_in_world.x
            &&& fit.world_points@[k].y == pairs[k].effective_camera_position_in_world.y
        }) by {
            law_fit_is_paired(fit, pairs, k);
            let pixel = pairs[k].projector_position_in_embedded_camera;
            crate::float_bits::law_nearest_single_rounds(pixel.x);
            crate::float_bits::law_nearest_single_rounds(pixel.y);
        }
    }
    if exists|i: int| 0 <= i < fits@.len() && (#[trigger] fits@[i]).camera == c {
        let i = choose|i: int| 0 <= i < fits@.len() && (#[trigger] fits@[i]).camera == c;
        assert(mesh@.contains_key(fits@[i].camera));
    }
}

/// A camera is labelled by its number, and `q` ends the session.
pub proof fn law_label_and_key(camera: CameraId, label: String, key: i32, ends: bool)
    requires
        call_ensures(camera_label, (camera,), label),
        call_ensures(ends_session, (key,), ends),
    ensures
        label@.len() > 7,
        label@.take(7) == "Camera "@,
        reads_as(label@.skip(7), camera as nat),
        ends <==> key == 113,
{
    reveal_strlit("Camera ");
    law_decimal_reads_back(camera as nat);
    assert(label@.take(7) =~= "Camera "@);
    assert(label@.skip(7) =~= decimal(camera as nat));
}

} // verus!
