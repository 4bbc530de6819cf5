//! The brush that paints where copies may stand: which dabs a stroke lands,
//! and which triangles of the ground a ray is tried against.

use vstd::prelude::*;
use crate::fraction::{clamp_fraction, clamped};
use crate::table::{lives, sound, thing_at, Handle};
use crate::tree::{deepens, parent, parent_of, rooted};
use crate::world::{EntityId, World, Worldly, MAX_ENTITIES};

verus! {

/// How wide a brush may be, at the least and at the most, by its bits: a
/// quarter and two hundred and fifty-six.
pub const NARROWEST: u32 = 0x3e80_0000;

pub const WIDEST: u32 = 0x4380_0000;

/// How hard a brush may press at the most, by its bits: a whole.
pub const HARDEST: u32 = 0x3f80_0000;

/// How wide a brush starts out, by its bits: four.
pub const RADIUS: u32 = 0x4080_0000;

/// How hard a brush starts out, by its bits: a little over a third.
pub const STRENGTH: u32 = 0x3eb3_3333;

/// How wide a brush is and how hard it presses, each by its bits.
#[derive(Clone, Copy, Debug, PartialEq, Eq, Structural)]
pub struct Stroke {
    /// How wide, in the ground's own units.
    pub radius: u32,
    /// How hard, a share of a whole cell a dab.
    pub strength: u32,
}

/// A brush nobody has turned.
pub open spec fn starting_stroke() -> Stroke {
    Stroke { radius: RADIUS, strength: STRENGTH }
}

/// A brush as wide and as hard as it is asked to be, each held inside what it
/// may be.
pub open spec fn stroke_within(radius: u32, strength: u32) -> Stroke {
    Stroke {
        radius: clamped(radius, NARROWEST, WIDEST),
        strength: clamped(strength, 0, HARDEST),
    }
}

impl Stroke {
    /// A brush as wide and as hard as it is asked to be, each held inside
    /// what it may be.
    pub fn within(radius: u32, strength: u32) -> (result: Stroke)
        ensures
            result == stroke_within(radius, strength),
    {
        Stroke {
            radius: clamp_fraction(radius, NARROWEST, WIDEST),
            strength: clamp_fraction(strength, 0, HARDEST),
        }
    }
}

/// A place on the ground, by the bits of its two fractions.
#[derive(Clone, Copy, Debug, PartialEq, Eq, Structural)]
pub struct Spot {
    pub x: u32,
    pub y: u32,
}

/// A stroke of the brush, from the moment the pointer went down: where the
/// last dab landed, or nothing before the first one.
#[derive(Clone, Copy, Debug, PartialEq, Eq, Structural)]
pub struct Brush {
    pub last: Option<Spot>,
}

impl Brush {
    /// A stroke that has not landed a dab.
    pub fn new() -> (result: Brush)
        ensures
            result.last is None,
    {
        Brush { last: None }
    }

    /// Whether a dab belongs here, and remembers it if it does: the first of
    /// a stroke does, and one far enough from the last. `far` is whether the
    /// stroke has gone far enough since then.
    pub fn dab(&mut self, at: Spot, far: bool) -> (result: bool)
        ensures
            result == (old(self).last is None || far),
            final(self).last == if result {
                Some(at)
            } else {
                old(self).last
            },
    {
        let lands: bool = self.last.is_none() || far;
        if lands {
            self.last = Some(at);
        }
        lands
    }

    /// Forgets where it was, so that the next dab lands wherever the stroke
    /// starts.
    pub fn lift(&mut self)
        ensures
            final(self).last is None,
    {
        self.last = None;
    }
}

/// The three corners of a triangle, by their numbers.
#[derive(Clone, Copy, Debug, PartialEq, Eq, Structural)]
pub struct Corners {
    pub first: usize,
    pub second: usize,
    pub third: usize,
}

/// A triangle's corners, unless it names one the mesh does not have.
pub open spec fn corners_said(indices: Seq<u32>, triangle: int, vertices: nat) -> Option<Corners> {
    let at = 3 * triangle;
    if at + 2 < indices.len() && indices[at] < vertices && indices[at + 1] < vertices && indices[at
        + 2] < vertices {
        Some(
            Corners {
                first: indices[at] as usize,
                second: indices[at + 1] as usize,
                third: indices[at + 2] as usize,
            },
        )
    } else {
        None
    }
}

/// The triangles among the first so many of a mesh that name only corners it
/// has.
pub open spec fn whole_triangles(indices: Seq<u32>, vertices: nat, count: nat) -> Seq<Corners>
    decreases count,
{
    if count == 0 {
        Seq::empty()
    } else {
        let so_far = whole_triangles(indices, vertices, (count - 1) as nat);
        match corners_said(indices, count - 1, vertices) {
            None => so_far,
            Some(corners) => so_far.push(corners),
        }
    }
}

/// The triangles of a mesh a ray is tried against: every three indices that
/// name only corners it has. Indices left over are no triangle.
pub fn triangles(indices: &Vec<u32>, vertices: usize) -> (result: Vec<Corners>)
    ensures
        result@ == whole_triangles(indices@, vertices as nat, indices@.len() / 3),
        forall|i: int|
            0 <= i < result@.len() ==> (#[trigger] result@[i]).first < vertices && result@[i].second
                < vertices && result@[i].third < vertices,
{
    let mut found: Vec<Corners> = Vec::new();
    let length: usize = indices.len();
    let count: usize = length / 3;
    let mut i: usize = 0;
    while i < count
        invariant
            i <= count,
            length == indices@.len(),
            count == length / 3,
            found@ == whole_triangles(indices@, vertices as nat, i as nat),
            forall|k: int|
                0 <= k < found@.len() ==> (#[trigger] found@[k]).first < vertices && found@[k].second
                    < vertices && found@[k].third < vertices,
        decreases count - i,
    {
        let at: usize = 3 * i;
        let first: usize = indices[at] as usize;
        let second: usize = indices[at + 1] as usize;
        let third: usize = indices[at + 2] as usize;
        if first < vertices && second < vertices && third < vertices {
            found.push(Corners { first, second, third });
        }
        i = i + 1;
    }
    found
}

/// The ground a strewing stands its copies on, if there is any to paint: what
/// it hangs off, where that draws a mesh there is. `strews` is whether it
/// strews anything at all.
pub open spec fn ground_of(world: Worldly, id: EntityId, strews: bool) -> Option<EntityId> {
    let ground = parent_of(world.scene.entities, id);
    if strews && lives(world.scene.entities, ground) && 0 < thing_at(
        world.scene.entities,
        ground,
    ).facts.mesh < world.meshes.len() {
        Some(ground)
    } else {
        None
    }
}

/// The ground a strewing stands its copies on, if there is any to paint.
pub fn ground_under(world: &World, id: EntityId, strews: bool) -> (result: Option<EntityId>)
    ensures
        result == ground_of(world.view(), id, strews),
{
    if !strews {
        return None;
    }
    let ground: EntityId = parent(&world.scene.entities, id);
    match world.scene.entities.get(ground) {
        None => None,
        Some(facts) => if facts.mesh != 0 && world.meshes.held(facts.mesh) {
            Some(ground)
        } else {
            None
        },
    }
}

/// What strews nothing, and what hangs off nothing, has no ground to paint; and
/// nothing is its own ground.
pub proof fn no_ground_to_paint(world: Worldly, id: EntityId, strews: bool)
    requires
        sound(world.scene.entities, MAX_ENTITIES as nat),
        rooted(world.scene.entities),
    ensures
        !strews ==> ground_of(world, id, strews) is None,
        !parent_of(world.scene.entities, id).some() ==> ground_of(world, id, strews) is None,
        ground_of(world, id, strews) != Some(id),
{
    let entities = world.scene.entities;
    let none = Handle::nothing();
    if lives(entities, none) {
        assert(entities[none.slot as int].generation >= 1);
    }
    let depth = choose|depth: spec_fn(EntityId) -> nat| deepens(entities, depth);
    if parent_of(entities, id) == id && id.some() {
        assert(lives(entities, id));
        assert(depth(parent_of(entities, id)) < depth(id));
    }
}

/// A ray is tried against exactly the triangles whose three corners the mesh has,
/// each by the three indices that name it, in their order.
pub proof fn every_whole_triangle_is_tried(indices: Seq<u32>, vertices: nat, count: nat, at: int)
    requires
        0 <= at < count,
        3 * count <= indices.len(),
    ensures
        ({
            let all = whole_triangles(indices, vertices, count);
            let named = indices[3 * at] < vertices && indices[3 * at + 1] < vertices && indices[3
                * at + 2] < vertices;
            named ==> all.contains(
                Corners {
                    first: indices[3 * at] as usize,
                    second: indices[3 * at + 1] as usize,
                    third: indices[3 * at + 2] as usize,
                },
            )
        }),
    decreases count,
{
    let all = whole_triangles(indices, vertices, count);
    let less = (count - 1) as nat;
    let so_far = whole_triangles(indices, vertices, less);
    let wanted = Corners {
        first: indices[3 * at] as usize,
        second: indices[3 * at + 1] as usize,
        third: indices[3 * at + 2] as usize,
    };
    if at < less {
        every_whole_triangle_is_tried(indices, vertices, less, at);
        if so_far.contains(wanted) {
            let k = choose|k: int| 0 <= k < so_far.len() && so_far[k] == wanted;
            assert(all[k] == wanted);
        }
    } else if indices[3 * at] < vertices && indices[3 * at + 1] < vertices && indices[3 * at + 2]
        < vertices {
        assert(all[so_far.len() as int] == wanted);
    }
}

/// The ground of what strews is what it hangs off, where that draws a mesh.
pub proof fn the_ground_is_what_it_hangs_off(world: Worldly, id: EntityId)
    ensures
        ({
            let entities = world.scene.entities;
            let over = parent_of(entities, id);
            let drawn = lives(entities, over) && 0 < thing_at(entities, over).facts.mesh
                < world.meshes.len();
            &&& drawn ==> ground_of(world, id, true) == Some(over)
            &&& !drawn ==> ground_of(world, id, true) is None
        }),
{
}

} // verus!
