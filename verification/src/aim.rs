//! Where the editor looks from across frames, and which of the things drawn
//! a click lands on.
//!
//! The rays and the angles are reckoned outside; here is who owns the camera,
//! and which of several hits is the one.

use vstd::prelude::*;
use crate::fraction::{alike, same_fraction, same_triple, triples_alike};
use crate::gizmo::{nearest, nearest_is_nearest, nearest_of};
use crate::helper::{drawn, draws};
use crate::select::Pick;
use crate::table::living;
use crate::world::{EntityId, Triple, World};

verus! {

/// Farther than anything: the bits of the fraction that is not less than any
/// other.
pub const FARTHEST: u32 = 0x7f80_0000;

/// A camera, by the bits of its fractions.
#[derive(Clone, Copy, Debug, PartialEq, Eq, Structural)]
pub struct Camera {
    pub position: Triple,
    pub target: Triple,
    pub up: Triple,
    pub fov: u32,
}

/// Whether two cameras look alike: fractions as fractions do.
pub open spec fn cameras_alike(left: Camera, right: Camera) -> bool {
    triples_alike(left.position, right.position) && triples_alike(left.target, right.target)
        && triples_alike(left.up, right.up) && alike(left.fov, right.fov)
}

/// Whether two cameras look alike.
fn same_camera(left: Camera, right: Camera) -> (result: bool)
    ensures
        result == cameras_alike(left, right),
{
    same_triple(left.position, right.position) && same_triple(left.target, right.target)
        && same_triple(left.up, right.up) && same_fraction(left.fov, right.fov)
}

/// Where the editor looks from, as an orbit around a point.
#[derive(Clone, Copy, Debug, PartialEq, Eq, Structural)]
pub struct Fly {
    pub target: Triple,
    pub yaw: u32,
    pub pitch: u32,
    pub distance: u32,
}

/// The editor's camera across frames: the orbit, and the camera it last put
/// in the world.
#[derive(Clone, Copy, Debug, PartialEq, Eq, Structural)]
pub struct Looking {
    pub orbit: Fly,
    pub wrote: Camera,
}

/// The view of a frame: the one held where the camera is as it left it, and
/// otherwise one read out of the camera.
pub open spec fn view_taken(held: Option<Looking>, camera: Camera, read: Fly) -> Looking {
    match held {
        Some(view) => if cameras_alike(view.wrote, camera) {
            view
        } else {
            Looking { orbit: read, wrote: camera }
        },
        None => Looking { orbit: read, wrote: camera },
    }
}

impl Looking {
    /// The view to use this frame. `read` is the orbit as it would be read
    /// out of the camera.
    pub fn taken(held: Option<Looking>, camera: Camera, read: Fly) -> (result: Looking)
        ensures
            result == view_taken(held, camera, read),
    {
        match held {
            Some(view) => if same_camera(view.wrote, camera) {
                view
            } else {
                Looking { orbit: read, wrote: camera }
            },
            None => Looking { orbit: read, wrote: camera },
        }
    }

    /// The orbit was put in the world, and this is the camera that landed
    /// there.
    pub fn put(&mut self, landed: Camera)
        ensures
            *final(self) == (Looking { wrote: landed, ..*old(self) }),
    {
        self.wrote = landed;
    }
}

/// Whoever said something last wins, and standing still says nothing: a view
/// nobody disturbed is the one from the last frame, and a camera somebody
/// else moved is read anew. A camera with a fraction in it that is no number
/// is another one every frame.
pub proof fn standing_still_says_nothing(view: Looking, landed: Camera, now: Camera, read: Fly)
    ensures
        ({
            let put = Looking { wrote: landed, ..view };
            &&& cameras_alike(landed, landed) ==> view_taken(Some(put), landed, read) == put
            &&& cameras_alike(landed, now) ==> view_taken(Some(put), now, read) == put
            &&& !cameras_alike(landed, now) ==> view_taken(Some(put), now, read) == (Looking {
                orbit: read,
                wrote: now,
            })
        }),
{
}

/// The entities that draw something, which are the ones a ray is tested
/// against.
pub fn candidates(world: &World) -> (result: Vec<EntityId>)
    requires
        world.wf(),
    ensures
        result@ == living(world.view().scene.entities).filter(
            |id: EntityId| drawn(world.view(), id),
        ),
{
    let ids: Vec<EntityId> = world.scene.entities.ids();
    let ghost all = ids@;
    let ghost wanted = |id: EntityId| drawn(world.view(), id);
    let mut found: Vec<EntityId> = Vec::new();
    let mut i: usize = 0;
    proof {
        reveal(Seq::filter);
        assert(all.take(0).filter(wanted) =~= Seq::empty());
    }
    while i < ids.len()
        invariant
            i <= ids@.len(),
            all == ids@,
            wanted == (|id: EntityId| drawn(world.view(), id)),
            found@ == all.take(i as int).filter(wanted),
        decreases ids@.len() - i,
    {
        proof {
            reveal(Seq::filter);
            assert(all.take(i as int + 1).drop_last() =~= all.take(i as int));
            assert(all.take(i as int + 1).last() == all[i as int]);
        }
        if draws(world, ids[i]) {
            found.push(ids[i]);
        }
        i = i + 1;
    }
    assert(all.take(i as int) =~= all);
    found
}

/// The nearest entity a ray goes through, by how far along the ray it enters
/// each candidate; nothing where it enters none.
pub fn under(candidates: &Vec<EntityId>, entered: &Vec<Option<u32>>) -> (result: Pick)
    requires
        candidates@.len() == entered@.len(),
    ensures
        result == match nearest_of(entered@, FARTHEST, entered@.len()) {
            None => Pick::Nothing,
            Some(index) => Pick::Entity(candidates@[index as int]),
        },
{
    proof {
        nearest_is_nearest(entered@, FARTHEST, entered@.len());
    }
    match nearest(entered, FARTHEST) {
        None => Pick::Nothing,
        Some(index) => Pick::Entity(candidates[index]),
    }
}

/// The view is read anew whenever anything of the camera moved: where it stands,
/// what it looks at, which way is up or how wide it sees.
pub proof fn a_moved_camera_is_read_anew(view: Looking, now: Camera, read: Fly)
    ensures
        !triples_alike(view.wrote.position, now.position) || !triples_alike(
            view.wrote.target,
            now.target,
        ) || !triples_alike(view.wrote.up, now.up) || !alike(view.wrote.fov, now.fov)
            ==> view_taken(Some(view), now, read) == (Looking { orbit: read, wrote: now }),
        triples_alike(view.wrote.position, now.position) && triples_alike(
            view.wrote.target,
            now.target,
        ) && triples_alike(view.wrote.up, now.up) && alike(view.wrote.fov, now.fov) ==> view_taken(
            Some(view),
            now,
            read,
        ) == view,
        view_taken(None, now, read) == (Looking { orbit: read, wrote: now }),
{
}

} // verus!
