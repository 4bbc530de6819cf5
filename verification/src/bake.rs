//! Turning blocks into a mesh.
//!
//! Blocks are the editing form and a mesh is the shipping form. A face
//! nobody can see is not written: two blocks side by side put two faces in
//! the same place, and both are dropped. The test is that the faces coincide,
//! not that the blocks are neighbors, so it works whatever their sizes.
//!
//! Where a face is in the world is reckoned outside and comes in as keys: its
//! middle and its corners, rounded to something two faces can agree on.

use vstd::prelude::*;
use vstd::string::*;
use crate::edit::{delete, deleted_from, filter_contains};
use crate::make::{called, stem, stem_of, CUBE};
use crate::select::Pick;
use crate::table::{
    lives, living, next_handle, spawned, spawned_is_new, texts, thing_at, Table,
};
use crate::text::plus;
use crate::world::{
    asset_name, identity, insert_number, inserted, known, numbered_is_first, plain_entity, Body,
    BodyKind, Described, Entity, EntityId, Known, Registry, ShapeKind, Transform, Triple, World,
    Worldly, MAX_BODIES, MAX_ENTITIES,
};

verus! {

/// A place, rounded to something two faces can agree on.
#[derive(Clone, Copy, Debug, PartialEq, Eq, Structural)]
pub struct Key {
    pub x: i64,
    pub y: i64,
    pub z: i64,
}

/// Where a face is: its middle and its four corners, each rounded to
/// something two faces can agree on.
#[derive(Clone, Copy, Debug, PartialEq, Eq, Structural)]
pub struct Place {
    pub middle: Key,
    pub first: Key,
    pub second: Key,
    pub third: Key,
    pub fourth: Key,
}

/// Whether a key is one of a face's corners.
pub open spec fn cornered(place: Place, key: Key) -> bool {
    key == place.first || key == place.second || key == place.third || key == place.fourth
}

/// Whether two faces coincide: the same middle, and the same corners in
/// whatever order, because two faces that meet are wound opposite ways.
pub open spec fn coincide(one: Place, other: Place) -> bool {
    &&& one.middle == other.middle
    &&& cornered(other, one.first) && cornered(other, one.second)
    &&& cornered(other, one.third) && cornered(other, one.fourth)
    &&& cornered(one, other.first) && cornered(one, other.second)
    &&& cornered(one, other.third) && cornered(one, other.fourth)
}

/// Coinciding is fair: a face coincides with itself, with whatever coincides
/// with it, and with what coincides with that.
pub proof fn coinciding_is_fair(one: Place, other: Place, third: Place)
    ensures
        coincide(one, one),
        coincide(one, other) == coincide(other, one),
        coincide(one, other) && coincide(other, third) ==> coincide(one, third),
{
}

/// One face of a box, in the world.
#[derive(Clone, Copy, Debug, PartialEq, Eq, Structural)]
pub struct Face {
    /// Where it is, which is what decides whether another face coincides.
    pub place: Place,
    /// Which way it points.
    pub normal: Triple,
    /// Its four corners, counter-clockwise seen from outside.
    pub first: Triple,
    pub second: Triple,
    pub third: Triple,
    pub fourth: Triple,
}

/// The six faces of one block, as they were reckoned from where it stands.
#[derive(Clone, Copy, Debug)]
pub struct Walls {
    pub block: EntityId,
    pub faces: [Face; 6],
}

/// One face of one block, in the world.
#[derive(Clone, Copy, Debug, PartialEq, Eq, Structural)]
pub struct Side {
    /// Where it is, which is what decides whether another face coincides.
    pub place: Place,
    /// Which way it points.
    pub normal: Triple,
    /// Its four corners, counter-clockwise seen from outside.
    pub first: Triple,
    pub second: Triple,
    pub third: Triple,
    pub fourth: Triple,
    /// What the block it belongs to is made of.
    pub material: u32,
}

/// One corner of a mesh.
#[derive(Clone, Copy, Debug, PartialEq, Eq, Structural)]
pub struct Vertex {
    pub position: Triple,
    pub normal: Triple,
    /// Which corner of its face it is, counted as the face counts them.
    pub corner: u8,
}

/// The faces of one material, as a mesh.
#[derive(Debug)]
pub struct Mesh {
    pub material: u32,
    pub vertices: Vec<Vertex>,
    pub indices: Vec<u32>,
}

/// The blocks a bake is about: what is selected, or every one of them where
/// nothing is. A block is an entity drawing the built-in cube.
pub open spec fn blocks_of(scene: Described, picks: Seq<Pick>) -> Seq<EntityId> {
    if picks.len() == 0 {
        living(scene.entities).filter(|id: EntityId| is_block(scene, id))
    } else {
        blocks_among(scene, picks)
    }
}

/// Whether an entity is a block.
pub open spec fn is_block(scene: Described, id: EntityId) -> bool {
    lives(scene.entities, id) && thing_at(scene.entities, id).facts.mesh == CUBE
}

/// The blocks among several things picked, in the order they were picked.
pub open spec fn blocks_among(scene: Described, picks: Seq<Pick>) -> Seq<EntityId>
    decreases picks.len(),
{
    if picks.len() == 0 {
        Seq::empty()
    } else {
        let so_far = blocks_among(scene, picks.drop_last());
        match picks.last() {
            Pick::Entity(id) => if is_block(scene, id) {
                so_far.push(id)
            } else {
                so_far
            },
            _ => so_far,
        }
    }
}

/// Whether an entity is a block.
fn block_here(entities: &Table<Entity>, id: EntityId) -> (result: bool)
    ensures
        result == (lives(entities.view(), id) && thing_at(entities.view(), id).facts.mesh == CUBE),
{
    match entities.get(id) {
        Some(facts) => facts.mesh == CUBE,
        None => false,
    }
}

/// The blocks a bake is about.
pub fn gathered(world: &World, picks: &Vec<Pick>) -> (result: Vec<EntityId>)
    requires
        world.wf(),
    ensures
        result@ == blocks_of(world.view().scene, picks@),
{
    let ghost scene = world.view().scene;
    let mut found: Vec<EntityId> = Vec::new();
    let mut i: usize = 0;
    if picks.len() == 0 {
        let ids: Vec<EntityId> = world.scene.entities.ids();
        let ghost all = ids@;
        let ghost wanted = |id: EntityId| is_block(scene, id);
        proof {
            reveal(Seq::filter);
            assert(all.take(0).filter(wanted) =~= Seq::empty());
        }
        while i < ids.len()
            invariant
                i <= ids@.len(),
                all == ids@,
                scene == world.view().scene,
                wanted == (|id: EntityId| is_block(scene, id)),
                found@ == all.take(i as int).filter(wanted),
            decreases ids@.len() - i,
        {
            proof {
                reveal(Seq::filter);
                assert(all.take(i as int + 1).drop_last() =~= all.take(i as int));
                assert(all.take(i as int + 1).last() == all[i as int]);
            }
            if block_here(&world.scene.entities, ids[i]) {
                found.push(ids[i]);
            }
            i = i + 1;
        }
        assert(all.take(i as int) =~= all);
        return found;
    }
    assert(picks@.take(0) =~= Seq::empty());
    while i < picks.len()
        invariant
            i <= picks@.len(),
            scene == world.view().scene,
            found@ == blocks_among(scene, picks@.take(i as int)),
        decreases picks@.len() - i,
    {
        proof {
            assert(picks@.take(i as int + 1).drop_last() =~= picks@.take(i as int));
            assert(picks@.take(i as int + 1).last() == picks@[i as int]);
        }
        match picks[i] {
            Pick::Entity(id) => {
                if block_here(&world.scene.entities, id) {
                    found.push(id);
                }
            },
            _ => {},
        }
        i = i + 1;
    }
    assert(picks@.take(i as int) =~= picks@);
    found
}

/// A face of a block, of what the block is made of.
pub open spec fn dressed(face: Face, material: u32) -> Side {
    Side {
        place: face.place,
        normal: face.normal,
        first: face.first,
        second: face.second,
        third: face.third,
        fourth: face.fourth,
        material,
    }
}

/// The six faces of a block, each of the block's own material.
pub open spec fn wall_sides(scene: Described, walls: Walls) -> Seq<Side> {
    Seq::new(
        6,
        |k: int| dressed(walls.faces@[k], thing_at(scene.entities, walls.block).facts.material),
    )
}

/// The faces of several blocks, of those a bake is about.
pub open spec fn sides_among(scene: Described, blocks: Seq<EntityId>, walls: Seq<Walls>) -> Seq<Side>
    decreases walls.len(),
{
    if walls.len() == 0 {
        Seq::empty()
    } else {
        let so_far = sides_among(scene, blocks, walls.drop_last());
        if blocks.contains(walls.last().block) {
            so_far + wall_sides(scene, walls.last())
        } else {
            so_far
        }
    }
}

/// The faces a bake of what is picked is about.
pub open spec fn sides_of(scene: Described, picks: Seq<Pick>, walls: Seq<Walls>) -> Seq<Side> {
    sides_among(scene, blocks_of(scene, picks), walls)
}

/// Several blocks give no more than six faces each.
pub proof fn blocks_give_few_faces(scene: Described, blocks: Seq<EntityId>, walls: Seq<Walls>)
    ensures
        sides_among(scene, blocks, walls).len() <= 6 * walls.len(),
    decreases walls.len(),
{
    if walls.len() > 0 {
        blocks_give_few_faces(scene, blocks, walls.drop_last());
    }
}

/// Every block gives its six faces, each of its own material, where the faces
/// of every block were reckoned.
pub proof fn every_block_gives_six_faces(
    scene: Described,
    blocks: Seq<EntityId>,
    walls: Seq<Walls>,
)
    requires
        forall|i: int| 0 <= i < walls.len() ==> blocks.contains((#[trigger] walls[i]).block),
    ensures
        sides_among(scene, blocks, walls).len() == 6 * walls.len(),
        forall|i: int, k: int|
            #![trigger walls[i].faces@[k]]
            0 <= i < walls.len() && 0 <= k < 6 ==> sides_among(scene, blocks, walls)[6 * i + k]
                == dressed(
                walls[i].faces@[k],
                thing_at(scene.entities, walls[i].block).facts.material,
            ),
    decreases walls.len(),
{
    if walls.len() > 0 {
        let less = walls.drop_last();
        let last = walls.last();
        assert(walls[walls.len() - 1] == last);
        assert forall|i: int| 0 <= i < less.len() implies blocks.contains(
            (#[trigger] less[i]).block,
        ) by {
            assert(less[i] == walls[i]);
        }
        every_block_gives_six_faces(scene, blocks, less);
        let so_far = sides_among(scene, blocks, less);
        let all = sides_among(scene, blocks, walls);
        assert(all == so_far + wall_sides(scene, last));
        assert forall|i: int, k: int|
            #![trigger walls[i].faces@[k]]
            0 <= i < walls.len() && 0 <= k < 6 implies all[6 * i + k] == dressed(
            walls[i].faces@[k],
            thing_at(scene.entities, walls[i].block).facts.material,
        ) by {
            if i < less.len() {
                assert(less[i] == walls[i]);
                assert(6 * i + k < so_far.len());
                assert(so_far[6 * i + k] == dressed(
                    less[i].faces@[k],
                    thing_at(scene.entities, less[i].block).facts.material,
                ));
            } else {
                assert(all[6 * i + k] == wall_sides(scene, last)[k]);
            }
        }
    }
}

/// Whether a block is one of several.
fn among(blocks: &Vec<EntityId>, id: EntityId) -> (result: bool)
    ensures
        result == blocks@.contains(id),
{
    let mut i: usize = 0;
    while i < blocks.len()
        invariant
            i <= blocks@.len(),
            forall|k: int| 0 <= k < i ==> #[trigger] blocks@[k] != id,
        decreases blocks@.len() - i,
    {
        if blocks[i] == id {
            return true;
        }
        i = i + 1;
    }
    false
}

/// The faces of several blocks, of those a bake is about.
pub fn sides(world: &World, blocks: &Vec<EntityId>, walls: &Vec<Walls>) -> (result: Vec<Side>)
    requires
        forall|i: int|
            0 <= i < blocks@.len() ==> lives(world.view().scene.entities, #[trigger] blocks@[i]),
    ensures
        result@ == sides_among(world.view().scene, blocks@, walls@),
{
    let ghost scene = world.view().scene;
    let mut sides: Vec<Side> = Vec::new();
    let mut i: usize = 0;
    assert(walls@.take(0) =~= Seq::empty());
    while i < walls.len()
        invariant
            i <= walls@.len(),
            scene == world.view().scene,
            forall|i: int|
                0 <= i < blocks@.len() ==> lives(scene.entities, #[trigger] blocks@[i]),
            sides@ == sides_among(scene, blocks@, walls@.take(i as int)),
        decreases walls@.len() - i,
    {
        proof {
            assert(walls@.take(i as int + 1).drop_last() =~= walls@.take(i as int));
            assert(walls@.take(i as int + 1).last() == walls@[i as int]);
        }
        let one: Walls = walls[i];
        if among(blocks, one.block) {
            let ghost before = sides@;
            let material: u32 = match world.scene.entities.get(one.block) {
                Some(facts) => facts.material,
                None => 0,
            };
            let ghost six = wall_sides(scene, one);
            let mut k: usize = 0;
            assert(before + six.take(0) =~= before);
            while k < 6
                invariant
                    k <= 6,
                    one == walls@[i as int],
                    six == wall_sides(scene, one),
                    material == thing_at(scene.entities, one.block).facts.material,
                    sides@ == before + six.take(k as int),
                decreases 6 - k,
            {
                let face: Face = one.faces[k];
                let side: Side = Side {
                    place: face.place,
                    normal: face.normal,
                    first: face.first,
                    second: face.second,
                    third: face.third,
                    fourth: face.fourth,
                    material,
                };
                assert(side == six[k as int]);
                sides.push(side);
                assert(before + six.take(k as int + 1) =~= (before + six.take(k as int)).push(
                    six[k as int],
                ));
                k = k + 1;
            }
            assert(six.take(6) =~= six);
        }
        i = i + 1;
    }
    assert(walls@.take(i as int) =~= walls@);
    sides
}

/// Every block a bake is about is alive.
pub proof fn blocks_live(scene: Described, picks: Seq<Pick>)
    requires
        scene.entities.len() <= u32::MAX,
    ensures
        forall|i: int|
            0 <= i < blocks_of(scene, picks).len() ==> lives(
                scene.entities,
                #[trigger] blocks_of(scene, picks)[i],
            ),
{
    let blocks = blocks_of(scene, picks);
    if picks.len() == 0 {
        let wanted = |id: EntityId| is_block(scene, id);
        filter_contains(living(scene.entities), wanted);
        assert forall|i: int| 0 <= i < blocks.len() implies lives(
            scene.entities,
            #[trigger] blocks[i],
        ) by {
            assert(blocks.contains(blocks[i]));
        }
    } else {
        picked_blocks_live(scene, picks);
    }
}

/// Every block among several things picked is alive.
proof fn picked_blocks_live(scene: Described, picks: Seq<Pick>)
    ensures
        forall|i: int|
            0 <= i < blocks_among(scene, picks).len() ==> lives(
                scene.entities,
                #[trigger] blocks_among(scene, picks)[i],
            ),
    decreases picks.len(),
{
    if picks.len() > 0 {
        let so_far = blocks_among(scene, picks.drop_last());
        let all = blocks_among(scene, picks);
        picked_blocks_live(scene, picks.drop_last());
        assert forall|i: int| 0 <= i < all.len() implies lives(
            scene.entities,
            #[trigger] all[i],
        ) by {
            if i < so_far.len() {
                assert(all[i] == so_far[i]);
            }
        }
    }
}

/// How many faces coincide with one that is somewhere.
pub open spec fn crowd(sides: Seq<Side>, place: Place) -> nat
    decreases sides.len(),
{
    if sides.len() == 0 {
        0
    } else if coincide(sides.last().place, place) {
        crowd(sides.drop_last(), place) + 1
    } else {
        crowd(sides.drop_last(), place)
    }
}

/// The faces that nothing else is standing against.
pub open spec fn open_sides(sides: Seq<Side>) -> Seq<Side> {
    sides.filter(|side: Side| crowd(sides, side.place) == 1)
}

/// Whether a key is one of a face's corners.
fn has_corner(place: Place, key: Key) -> (result: bool)
    ensures
        result == cornered(place, key),
{
    key == place.first || key == place.second || key == place.third || key == place.fourth
}

/// Whether two faces coincide.
pub fn coincides(one: Place, other: Place) -> (result: bool)
    ensures
        result == coincide(one, other),
{
    one.middle == other.middle && has_corner(other, one.first) && has_corner(other, one.second)
        && has_corner(other, one.third) && has_corner(other, one.fourth) && has_corner(
        one,
        other.first,
    ) && has_corner(one, other.second) && has_corner(one, other.third) && has_corner(
        one,
        other.fourth,
    )
}

/// How many faces coincide with one that is somewhere.
fn count_at(sides: &Vec<Side>, place: Place) -> (result: usize)
    ensures
        result == crowd(sides@, place),
{
    let mut count: usize = 0;
    let mut i: usize = 0;
    assert(sides@.take(0) =~= Seq::empty());
    while i < sides.len()
        invariant
            count <= i <= sides@.len(),
            count == crowd(sides@.take(i as int), place),
        decreases sides@.len() - i,
    {
        proof {
            assert(sides@.take(i as int + 1).drop_last() =~= sides@.take(i as int));
            assert(sides@.take(i as int + 1).last() == sides@[i as int]);
        }
        if coincides(sides[i].place, place) {
            count = count + 1;
        }
        i = i + 1;
    }
    assert(sides@.take(i as int) =~= sides@);
    count
}

/// Every face that something else is not standing against, and how many were
/// dropped.
pub fn standing(sides: &Vec<Side>) -> (result: (Vec<Side>, usize))
    ensures
        result.0@ == open_sides(sides@),
        result.1 == sides@.len() - open_sides(sides@).len(),
        result.0@.len() <= sides@.len(),
{
    let ghost all = sides@;
    let ghost seen = |side: Side| crowd(all, side.place) == 1;
    let mut kept: Vec<Side> = Vec::new();
    let mut i: usize = 0;
    proof {
        reveal(Seq::filter);
        assert(all.take(0).filter(seen) =~= Seq::empty());
    }
    while i < sides.len()
        invariant
            i <= sides@.len(),
            all == sides@,
            seen == (|side: Side| crowd(all, side.place) == 1),
            kept@ == all.take(i as int).filter(seen),
            kept@.len() <= i,
        decreases sides@.len() - i,
    {
        proof {
            reveal(Seq::filter);
            assert(all.take(i as int + 1).drop_last() =~= all.take(i as int));
            assert(all.take(i as int + 1).last() == all[i as int]);
        }
        if count_at(sides, sides[i].place) == 1 {
            kept.push(sides[i]);
        }
        i = i + 1;
    }
    assert(all.take(i as int) =~= all);
    let buried: usize = sides.len() - kept.len();
    (kept, buried)
}

/// A face that coincides is counted.
proof fn crowd_counts(sides: Seq<Side>, place: Place, i: int)
    requires
        0 <= i < sides.len(),
        coincide(sides[i].place, place),
    ensures
        crowd(sides, place) >= 1,
    decreases sides.len(),
{
    if i < sides.len() - 1 {
        crowd_counts(sides.drop_last(), place, i);
    }
}

/// Two faces that coincide are counted twice.
proof fn crowd_counts_both(sides: Seq<Side>, place: Place, i: int, j: int)
    requires
        0 <= i < j < sides.len(),
        coincide(sides[i].place, place),
        coincide(sides[j].place, place),
    ensures
        crowd(sides, place) >= 2,
    decreases sides.len(),
{
    let less = sides.drop_last();
    if j < sides.len() - 1 {
        crowd_counts_both(less, place, i, j);
    } else {
        crowd_counts(less, place, i);
    }
}

/// Where more than one face is counted, one of them is another.
proof fn crowd_is_faces(sides: Seq<Side>, place: Place, i: int)
    requires
        0 <= i < sides.len(),
        coincide(sides[i].place, place),
        crowd(sides, place) != 1,
    ensures
        exists|j: int|
            0 <= j < sides.len() && j != i && coincide((#[trigger] sides[j]).place, place),
    decreases sides.len(),
{
    let less = sides.drop_last();
    crowd_counts(sides, place, i);
    if i == sides.len() - 1 {
        crowd_has_one(less, place);
        let j = choose|j: int| 0 <= j < less.len() && coincide((#[trigger] less[j]).place, place);
        assert(coincide(sides[j].place, place));
    } else if coincide(sides.last().place, place) {
        assert(coincide(sides[sides.len() - 1].place, place));
    } else {
        crowd_is_faces(less, place, i);
        let j = choose|j: int|
            0 <= j < less.len() && j != i && coincide((#[trigger] less[j]).place, place);
        assert(coincide(sides[j].place, place));
    }
}

/// Where a face is counted, one is.
proof fn crowd_has_one(sides: Seq<Side>, place: Place)
    requires
        crowd(sides, place) >= 1,
    ensures
        exists|j: int| 0 <= j < sides.len() && coincide((#[trigger] sides[j]).place, place),
    decreases sides.len(),
{
    if coincide(sides.last().place, place) {
        assert(coincide(sides[sides.len() - 1].place, place));
    } else {
        let less = sides.drop_last();
        crowd_has_one(less, place);
        let j = choose|j: int| 0 <= j < less.len() && coincide((#[trigger] less[j]).place, place);
        assert(coincide(sides[j].place, place));
    }
}

/// A face is written exactly when no other face coincides with it, so that a
/// wall of blocks keeps only its skin.
pub proof fn only_open_faces_are_written(sides: Seq<Side>, i: int)
    requires
        0 <= i < sides.len(),
    ensures
        open_sides(sides).contains(sides[i]) <==> (forall|j: int|
            0 <= j < sides.len() && j != i ==> !coincide(
                (#[trigger] sides[j]).place,
                sides[i].place,
            )),
{
    let seen = |side: Side| crowd(sides, side.place) == 1;
    let kept = sides.filter(seen);
    let place = sides[i].place;
    sides_filter_contains(sides, seen);
    assert(sides.contains(sides[i]));
    assert(kept.contains(sides[i]) <==> crowd(sides, place) == 1);
    crowd_counts(sides, place, i);
    if crowd(sides, place) == 1 {
        assert forall|j: int| 0 <= j < sides.len() && j != i implies !coincide(
            (#[trigger] sides[j]).place,
            place,
        ) by {
            if coincide(sides[j].place, place) {
                if i < j {
                    crowd_counts_both(sides, place, i, j);
                } else {
                    crowd_counts_both(sides, place, j, i);
                }
            }
        }
    } else {
        crowd_is_faces(sides, place, i);
    }
}

/// What is kept of several faces is what was among them and is wanted.
proof fn sides_filter_contains(sides: Seq<Side>, wanted: spec_fn(Side) -> bool)
    ensures
        forall|side: Side|
            #[trigger] sides.filter(wanted).contains(side) <==> sides.contains(side) && wanted(side),
    decreases sides.len(),
{
    reveal(Seq::filter);
    if sides.len() > 0 {
        let less = sides.drop_last();
        sides_filter_contains(less, wanted);
        let kept = sides.filter(wanted);
        let head = less.filter(wanted);
        assert forall|side: Side| #[trigger] kept.contains(side) <==> sides.contains(side)
            && wanted(side) by {
            if sides.contains(side) {
                let k = choose|k: int| 0 <= k < sides.len() && sides[k] == side;
                if k < less.len() {
                    assert(less[k] == side);
                }
            }
            if less.contains(side) {
                let k = choose|k: int| 0 <= k < less.len() && less[k] == side;
                assert(sides[k] == side);
            }
            if kept.contains(side) {
                let k = choose|k: int| 0 <= k < kept.len() && kept[k] == side;
                if k < head.len() {
                    assert(head[k] == side);
                    assert(head.contains(side));
                } else {
                    assert(sides[sides.len() - 1] == side);
                }
            }
            if head.contains(side) {
                let k = choose|k: int| 0 <= k < head.len() && head[k] == side;
                assert(kept[k] == side);
            }
            if sides.last() == side && wanted(side) {
                assert(kept[head.len() as int] == side);
            }
        }
    }
}

/// The faces of one material.
pub ghost struct Group {
    pub material: u32,
    pub faces: Seq<Side>,
}

/// Where the group of a material is, if there is one.
pub open spec fn group_at(groups: Seq<Group>, material: u32) -> Option<int>
    decreases groups.len(),
{
    if groups.len() == 0 {
        None
    } else if groups[0].material == material {
        Some(0)
    } else {
        match group_at(groups.drop_first(), material) {
            None => None,
            Some(index) => Some(index + 1),
        }
    }
}

/// Faces gathered by their materials, in the order the materials were first
/// met.
pub open spec fn groups_of(sides: Seq<Side>) -> Seq<Group>
    decreases sides.len(),
{
    if sides.len() == 0 {
        Seq::empty()
    } else {
        let so_far = groups_of(sides.drop_last());
        let face = sides.last();
        match group_at(so_far, face.material) {
            Some(index) => so_far.update(
                index,
                Group { faces: so_far[index].faces.push(face), ..so_far[index] },
            ),
            None => so_far.push(Group { material: face.material, faces: seq![face] }),
        }
    }
}

/// The corners of faces, four each.
pub open spec fn corners_of(faces: Seq<Side>) -> Seq<Vertex>
    decreases faces.len(),
{
    if faces.len() == 0 {
        Seq::empty()
    } else {
        let face = faces.last();
        corners_of(faces.drop_last()) + seq![
            Vertex { position: face.first, normal: face.normal, corner: 0 },
            Vertex { position: face.second, normal: face.normal, corner: 1 },
            Vertex { position: face.third, normal: face.normal, corner: 2 },
            Vertex { position: face.fourth, normal: face.normal, corner: 3 },
        ]
    }
}

/// The triangles of faces, two each, by the numbers of their corners.
pub open spec fn triangles_of(count: nat) -> Seq<u32>
    decreases count,
{
    if count == 0 {
        Seq::empty()
    } else {
        let base = 4 * (count - 1);
        triangles_of((count - 1) as nat) + seq![
            base as u32,
            (base + 1) as u32,
            (base + 2) as u32,
            base as u32,
            (base + 2) as u32,
            (base + 3) as u32,
        ]
    }
}

impl Mesh {
    /// Whether the mesh is that of a group.
    pub open spec fn is_of(&self, group: Group) -> bool {
        &&& self.material == group.material
        &&& self.vertices@ == corners_of(group.faces)
        &&& self.indices@ == triangles_of(group.faces.len())
    }
}

/// Whether meshes are those of groups.
pub open spec fn are_of(meshes: Seq<Mesh>, groups: Seq<Group>) -> bool {
    &&& meshes.len() == groups.len()
    &&& forall|i: int| 0 <= i < meshes.len() ==> (#[trigger] meshes[i]).is_of(groups[i])
}

/// Corners are four to a face.
pub proof fn corners_are_four(faces: Seq<Side>)
    ensures
        corners_of(faces).len() == 4 * faces.len(),
    decreases faces.len(),
{
    if faces.len() > 0 {
        corners_are_four(faces.drop_last());
    }
}

/// Triangles are two to a face, and name no corner there is not.
pub proof fn triangles_are_two(count: nat)
    requires
        4 * count <= u32::MAX,
    ensures
        triangles_of(count).len() == 6 * count,
        forall|i: int| 0 <= i < triangles_of(count).len() ==> #[trigger] triangles_of(count)[i] < 4
            * count,
    decreases count,
{
    if count > 0 {
        triangles_are_two((count - 1) as nat);
        let less = triangles_of((count - 1) as nat);
        assert forall|i: int| 0 <= i < triangles_of(count).len() implies #[trigger] triangles_of(
            count,
        )[i] < 4 * count by {
            if i < less.len() {
                assert(triangles_of(count)[i] == less[i]);
            }
        }
    }
}

/// Puts one face into a mesh.
fn push(mesh: &mut Mesh, face: Side, Ghost(faces): Ghost<Seq<Side>>)
    requires
        old(mesh).vertices@ == corners_of(faces),
        old(mesh).indices@ == triangles_of(faces.len()),
        4 * (faces.len() + 1) <= u32::MAX,
    ensures
        final(mesh).material == old(mesh).material,
        final(mesh).vertices@ == corners_of(faces.push(face)),
        final(mesh).indices@ == triangles_of(faces.len() + 1),
{
    proof {
        corners_are_four(faces);
        assert(faces.push(face).drop_last() =~= faces);
    }
    let base: u32 = mesh.vertices.len() as u32;
    mesh.vertices.push(Vertex { position: face.first, normal: face.normal, corner: 0 });
    mesh.vertices.push(Vertex { position: face.second, normal: face.normal, corner: 1 });
    mesh.vertices.push(Vertex { position: face.third, normal: face.normal, corner: 2 });
    mesh.vertices.push(Vertex { position: face.fourth, normal: face.normal, corner: 3 });
    mesh.indices.push(base);
    mesh.indices.push(base + 1);
    mesh.indices.push(base + 2);
    mesh.indices.push(base);
    mesh.indices.push(base + 2);
    mesh.indices.push(base + 3);
    assert(mesh.vertices@ =~= corners_of(faces.push(face)));
    assert(mesh.indices@ =~= triangles_of(faces.len() + 1));
}

/// No group holds more faces than there are.
proof fn groups_are_small(sides: Seq<Side>)
    ensures
        forall|i: int|
            0 <= i < groups_of(sides).len() ==> (#[trigger] groups_of(sides)[i]).faces.len()
                <= sides.len(),
        groups_of(sides).len() <= sides.len(),
    decreases sides.len(),
{
    if sides.len() > 0 {
        let less = sides.drop_last();
        groups_are_small(less);
        group_is_first(groups_of(less), sides.last().material);
    }
}

/// The group of a material is of that material, and the first that is.
proof fn group_is_first(groups: Seq<Group>, material: u32)
    ensures
        match group_at(groups, material) {
            None => forall|i: int|
                0 <= i < groups.len() ==> (#[trigger] groups[i]).material != material,
            Some(index) => {
                &&& 0 <= index < groups.len()
                &&& groups[index].material == material
            },
        },
    decreases groups.len(),
{
    if groups.len() > 0 && groups[0].material != material {
        let less = groups.drop_first();
        group_is_first(less, material);
        if group_at(less, material) is None {
            assert forall|i: int| 0 <= i < groups.len() implies (#[trigger] groups[i]).material
                != material by {
                if i > 0 {
                    assert(groups[i] == less[i - 1]);
                }
            }
        }
    }
}

/// Where the mesh of a material is, if there is one.
fn find_mesh(meshes: &Vec<Mesh>, material: u32, Ghost(groups): Ghost<Seq<Group>>) -> (result: Option<
    usize,
>)
    requires
        are_of(meshes@, groups),
    ensures
        match group_at(groups, material) {
            None => result is None,
            Some(index) => result is Some && result->0 == index && index < meshes@.len(),
        },
{
    let mut i: usize = 0;
    assert(groups.skip(0) =~= groups);
    while i < meshes.len()
        invariant
            i <= meshes@.len(),
            are_of(meshes@, groups),
            match group_at(groups.skip(i as int), material) {
                None => group_at(groups, material) is None,
                Some(index) => group_at(groups, material) == Some(index + i),
            },
        decreases meshes@.len() - i,
    {
        assert(groups.skip(i as int)[0] == groups[i as int]);
        assert(groups.skip(i as int).drop_first() =~= groups.skip(i as int + 1));
        assert(meshes@[i as int].is_of(groups[i as int]));
        if meshes[i].material == material {
            return Some(i);
        }
        i = i + 1;
    }
    None
}

/// Faces gathered into one mesh per material, in the order the materials were
/// first met.
pub fn grouped(sides: &Vec<Side>) -> (result: Vec<Mesh>)
    requires
        4 * sides@.len() <= u32::MAX,
    ensures
        are_of(result@, groups_of(sides@)),
{
    let mut out: Vec<Mesh> = Vec::new();
    let mut i: usize = 0;
    assert(sides@.take(0) =~= Seq::empty());
    while i < sides.len()
        invariant
            i <= sides@.len(),
            4 * sides@.len() <= u32::MAX,
            are_of(out@, groups_of(sides@.take(i as int))),
        decreases sides@.len() - i,
    {
        let face: Side = sides[i];
        let ghost groups = groups_of(sides@.take(i as int));
        let ghost before = out@;
        proof {
            assert(sides@.take(i as int + 1).drop_last() =~= sides@.take(i as int));
            assert(sides@.take(i as int + 1).last() == face);
            groups_are_small(sides@.take(i as int));
            group_is_first(groups, face.material);
        }
        match find_mesh(&out, face.material, Ghost(groups)) {
            Some(at) => {
                assert(out@[at as int].is_of(groups[at as int]));
                assert(groups[at as int].faces.len() <= i);
                push(&mut out[at], face, Ghost(groups[at as int].faces));
                let ghost after = groups_of(sides@.take(i as int + 1));
                assert forall|k: int| 0 <= k < out@.len() implies (#[trigger] out@[k]).is_of(
                    after[k],
                ) by {
                    if k != at {
                        assert(out@[k] == before[k]);
                        assert(before[k].is_of(groups[k]));
                    }
                }
            },
            None => {
                let mut fresh: Mesh = Mesh {
                    material: face.material,
                    vertices: Vec::new(),
                    indices: Vec::new(),
                };
                assert(corners_of(Seq::empty()) =~= Seq::empty());
                assert(triangles_of(0) =~= Seq::empty());
                push(&mut fresh, face, Ghost(Seq::empty()));
                assert(Seq::<Side>::empty().push(face) =~= seq![face]);
                out.push(fresh);
                let ghost after = groups_of(sides@.take(i as int + 1));
                assert forall|k: int| 0 <= k < out@.len() implies (#[trigger] out@[k]).is_of(
                    after[k],
                ) by {
                    if k < before.len() {
                        assert(out@[k] == before[k]);
                        assert(before[k].is_of(groups[k]));
                    }
                }
            },
        }
        i = i + 1;
    }
    assert(sides@.take(i as int) =~= sides@);
    out
}

/// Faces are gathered whole: no material has two groups, the faces of a group
/// are exactly those of its material in their order, and every face is of a
/// material that has one.
pub proof fn groups_part_the_faces(sides: Seq<Side>)
    ensures
        ({
            let groups = groups_of(sides);
            &&& forall|i: int, j: int|
                0 <= i < j < groups.len() ==> (#[trigger] groups[i]).material != (
                #[trigger] groups[j]).material
            &&& forall|i: int|
                0 <= i < groups.len() ==> (#[trigger] groups[i]).faces == sides.filter(
                    |side: Side| side.material == groups[i].material,
                ) && groups[i].faces.len() > 0
            &&& forall|k: int|
                0 <= k < sides.len() ==> group_at(groups, (#[trigger] sides[k]).material) is Some
        }),
    decreases sides.len(),
{
    reveal(Seq::filter);
    if sides.len() > 0 {
        let less = sides.drop_last();
        let face = sides.last();
        groups_part_the_faces(less);
        let so_far = groups_of(less);
        let groups = groups_of(sides);
        group_is_first(so_far, face.material);
        group_is_first(groups, face.material);
        assert forall|i: int, j: int| 0 <= i < j < groups.len() implies (
        #[trigger] groups[i]).material != (#[trigger] groups[j]).material by {
            if j < so_far.len() {
                assert(so_far[i].material != so_far[j].material);
            } else {
                assert(so_far[i].material != face.material);
            }
        }
        assert forall|i: int| 0 <= i < groups.len() implies (#[trigger] groups[i]).faces
            == sides.filter(|side: Side| side.material == groups[i].material)
            && groups[i].faces.len() > 0 by {
            let mine = |side: Side| side.material == groups[i].material;
            if i < so_far.len() {
                assert(so_far[i].material == groups[i].material);
                assert(so_far[i].faces == less.filter(
                    |side: Side| side.material == so_far[i].material,
                ));
                sides_filter_same(
                    less,
                    |side: Side| side.material == so_far[i].material,
                    mine,
                );
                assert(sides.filter(mine) == if face.material == groups[i].material {
                    less.filter(mine).push(face)
                } else {
                    less.filter(mine)
                });
                if let Some(index) = group_at(so_far, face.material) {
                    if i != index {
                        if i < index {
                            assert(so_far[i].material != so_far[index].material);
                        } else {
                            assert(so_far[index].material != so_far[i].material);
                        }
                    }
                }
            } else {
                no_face_of(less, so_far, face.material);
                sides_filter_empty(less, mine);
                assert(sides.filter(mine) =~= seq![face]);
            }
        }
        assert forall|k: int| 0 <= k < sides.len() implies group_at(
            groups,
            (#[trigger] sides[k]).material,
        ) is Some by {
            group_is_first(groups, sides[k].material);
            if k < less.len() {
                assert(less[k] == sides[k]);
                group_is_first(so_far, sides[k].material);
                let index = group_at(so_far, sides[k].material)->0;
                assert(groups[index].material == so_far[index].material);
            } else {
                if let Some(index) = group_at(so_far, face.material) {
                    assert(groups[index].material == face.material);
                } else {
                    assert(groups[so_far.len() as int].material == face.material);
                }
            }
        }
    }
}

/// Filtering by two questions that agree gives the same.
proof fn sides_filter_same(
    sides: Seq<Side>,
    one: spec_fn(Side) -> bool,
    other: spec_fn(Side) -> bool,
)
    requires
        forall|side: Side| one(side) == #[trigger] other(side),
    ensures
        sides.filter(one) == sides.filter(other),
    decreases sides.len(),
{
    reveal(Seq::filter);
    if sides.len() > 0 {
        sides_filter_same(sides.drop_last(), one, other);
        assert(one(sides.last()) == other(sides.last()));
    }
}

/// Filtering by what nothing answers gives nothing.
proof fn sides_filter_empty(sides: Seq<Side>, wanted: spec_fn(Side) -> bool)
    requires
        forall|i: int| 0 <= i < sides.len() ==> !wanted(#[trigger] sides[i]),
    ensures
        sides.filter(wanted) == Seq::<Side>::empty(),
    decreases sides.len(),
{
    reveal(Seq::filter);
    if sides.len() > 0 {
        let less = sides.drop_last();
        assert forall|i: int| 0 <= i < less.len() implies !wanted(#[trigger] less[i]) by {
            assert(less[i] == sides[i]);
        }
        sides_filter_empty(less, wanted);
        assert(!wanted(sides[sides.len() - 1]));
    } else {
        assert(sides.filter(wanted) =~= Seq::empty());
    }
}

/// No face is of a material that has no group.
proof fn no_face_of(sides: Seq<Side>, groups: Seq<Group>, material: u32)
    requires
        group_at(groups, material) is None,
        forall|k: int|
            0 <= k < sides.len() ==> group_at(groups, (#[trigger] sides[k]).material) is Some,
    ensures
        forall|k: int| 0 <= k < sides.len() ==> (#[trigger] sides[k]).material != material,
{
}

/// What the file a material's faces go into is called: the last part of the
/// material's name, or a word for the one without.
pub open spec fn plain_name(materials: Seq<Known>, material: u32) -> Seq<char> {
    let last = stem_of(asset_name(materials, material));
    if last.len() == 0 {
        "default"@
    } else {
        last
    }
}

/// What to call the file a material's faces go into.
pub fn plain(materials: &Registry, material: u32) -> (result: String)
    ensures
        result@ == plain_name(materials.view(), material),
{
    let last: String = stem(materials.name(material));
    if last.as_str().is_empty() {
        "default".to_owned()
    } else {
        last
    }
}

/// The name a material's faces are registered under.
pub open spec fn mesh_name(materials: Seq<Known>, name: Seq<char>, material: u32) -> Seq<char> {
    "maps/"@ + name + "/"@ + plain_name(materials, material)
}

/// A world with the faces of the first so many groups standing in it, and
/// what of it is selected: for each material a mesh, an entity drawing it and
/// a body colliding as it. What there is no room for is left out.
pub open spec fn laid(world: Worldly, name: Seq<char>, groups: Seq<Group>, count: nat) -> (
    Worldly,
    Seq<Pick>,
)
    decreases count,
{
    if count == 0 {
        (world, Seq::empty())
    } else {
        let (so_far, made) = laid(world, name, groups, (count - 1) as nat);
        laid_one(so_far, made, name, groups[count - 1].material)
    }
}

/// A world with the faces of one more material standing in it.
pub open spec fn laid_one(world: Worldly, made: Seq<Pick>, name: Seq<char>, material: u32) -> (
    Worldly,
    Seq<Pick>,
) {
    let under = mesh_name(world.materials, name, material);
    let mesh = insert_number(world.meshes, under) as u32;
    let meshes = inserted(world.meshes, known(under, true));
    let entity = next_handle(world.scene.entities, MAX_ENTITIES as nat);
    let plain = plain_name(world.materials, material);
    if !entity.some() {
        (Worldly { meshes, ..world }, made)
    } else {
        (
            Worldly {
                meshes,
                scene: Described {
                    entities: spawned(
                        world.scene.entities,
                        MAX_ENTITIES as nat,
                        called(plain, Entity { mesh, material, ..plain_entity(identity()) }),
                    ),
                    bodies: spawned(
                        world.scene.bodies,
                        MAX_BODIES as nat,
                        called(plain, baked_body(entity, mesh)),
                    ),
                    ..world.scene
                },
                ..world
            },
            made.push(Pick::Entity(entity)),
        )
    }
}

/// The body left behind: static, colliding as a mesh.
pub open spec fn baked_body(entity: EntityId, mesh: u32) -> Body {
    Body {
        entity,
        transform: identity(),
        kind: BodyKind::Static,
        shape: ShapeKind::Mesh,
        collider: mesh,
        sensor: false,
        wet: false,
    }
}

/// What one bake came to.
#[derive(Debug)]
pub struct Baked {
    /// The entities it made, one per material.
    pub made: Vec<Pick>,
    /// The geometry, one mesh per material, in the order of the entities.
    pub meshes: Vec<Mesh>,
    /// How many blocks went into it.
    pub blocks: usize,
    /// How many triangles came out.
    pub triangles: usize,
    /// How many faces were dropped for being buried.
    pub buried: usize,
}

/// Blocks as things picked.
pub open spec fn as_picks(blocks: Seq<EntityId>) -> Seq<Pick> {
    Seq::new(blocks.len(), |i: int| Pick::Entity(blocks[i]))
}

/// The world a bake leaves: the blocks gone with the bodies that drove them,
/// and what their open faces come to standing in their place.
pub open spec fn baked_world(
    world: Worldly,
    picks: Seq<Pick>,
    sides: Seq<Side>,
    name: Seq<char>,
) -> (Worldly, Seq<Pick>) {
    let blocks = blocks_of(world.scene, picks);
    if blocks.len() == 0 {
        (world, Seq::empty())
    } else {
        let groups = groups_of(open_sides(sides));
        laid(
            Worldly { scene: deleted_from(world.scene, as_picks(blocks)), ..world },
            name,
            groups,
            groups.len(),
        )
    }
}

/// Puts the faces of one more material in the world.
fn lay(world: &mut World, name: &str, material: u32) -> (result: Option<EntityId>)
    requires
        old(world).wf(),
        old(world).view().meshes.len() < u32::MAX,
    ensures
        final(world).wf(),
        final(world).view().meshes.len() <= old(world).view().meshes.len() + 1,
        final(world).view() == laid_one(old(world).view(), Seq::empty(), name@, material).0,
        result == {
            let entity = next_handle(old(world).view().scene.entities, MAX_ENTITIES as nat);
            if entity.some() {
                Some(entity)
            } else {
                None
            }
        },
{
    let ghost was = world.view();
    let called_as: String = plain(&world.materials, material);
    let dir: String = plus(plus("maps/", name).as_str(), "/");
    let under: String = plus(dir.as_str(), called_as.as_str());
    let mesh: u32 = world.meshes.insert(under.as_str(), true);
    let facts: Entity = Entity { mesh, material, ..Entity::plain(Transform::unmoved()) };
    let notes: Vec<String> = Vec::new();
    assert(texts(notes@) =~= Seq::empty());
    let entity: EntityId = world.scene.entities.spawn(called_as.as_str(), notes, facts);
    proof {
        spawned_is_new(
            was.scene.entities,
            MAX_ENTITIES as nat,
            called(called_as@, facts),
            entity,
        );
    }
    if !entity.is_some() {
        return None;
    }
    let none: Vec<String> = Vec::new();
    assert(texts(none@) =~= Seq::empty());
    world.scene.bodies.spawn(
        called_as.as_str(),
        none,
        Body {
            entity,
            transform: Transform::unmoved(),
            kind: BodyKind::Static,
            shape: ShapeKind::Mesh,
            collider: mesh,
            sensor: false,
            wet: false,
        },
    );
    Some(entity)
}

/// Bakes blocks into one mesh per material. `walls` are the faces of the
/// blocks a bake of these picks is about, and `name` what to call the meshes.
/// What was made, and what it came to.
pub fn bake(world: &mut World, picks: &Vec<Pick>, walls: &Vec<Walls>, name: &str) -> (result: Baked)
    requires
        old(world).wf(),
        24 * walls@.len() <= u32::MAX,
        old(world).view().meshes.len() + 6 * walls@.len() < u32::MAX,
    ensures
        final(world).wf(),
        ({
            let blocks = blocks_of(old(world).view().scene, picks@);
            let sides = sides_of(old(world).view().scene, picks@, walls@);
            let (after, made) = baked_world(old(world).view(), picks@, sides, name@);
            let open = open_sides(sides);
            &&& final(world).view() == after
            &&& result.made@ == made
            &&& result.blocks == blocks.len()
            &&& if blocks.len() == 0 {
                &&& result.meshes@.len() == 0
                &&& result.triangles == 0
                &&& result.buried == 0
            } else {
                &&& are_of(result.meshes@, groups_of(open))
                &&& result.triangles == 2 * open.len()
                &&& result.buried == sides.len() - open.len()
            }
            &&& blocks == Seq::new(walls@.len(), |i: int| walls@[i].block) ==> result.triangles == 2
                * (6 * result.blocks - result.buried)
        }),
{
    let ghost was = world.view();
    let blocks: Vec<EntityId> = gathered(world, picks);
    let mut made: Vec<Pick> = Vec::new();
    if blocks.len() == 0 {
        return Baked { made, meshes: Vec::new(), blocks: 0, triangles: 0, buried: 0 };
    }
    proof {
        blocks_live(was.scene, picks@);
        blocks_give_few_faces(was.scene, blocks@, walls@);
        if blocks@ == Seq::new(walls@.len(), |i: int| walls@[i].block) {
            assert forall|i: int| 0 <= i < walls@.len() implies blocks@.contains(
                (#[trigger] walls@[i]).block,
            ) by {
                assert(blocks@[i] == walls@[i].block);
            }
            every_block_gives_six_faces(was.scene, blocks@, walls@);
        }
    }
    let sides: Vec<Side> = sides(world, &blocks, walls);
    let (open, buried): (Vec<Side>, usize) = standing(&sides);
    let mut gone: Vec<Pick> = Vec::new();
    let mut k: usize = 0;
    while k < blocks.len()
        invariant
            k <= blocks@.len(),
            gone@ == as_picks(blocks@).take(k as int),
        decreases blocks@.len() - k,
    {
        gone.push(Pick::Entity(blocks[k]));
        assert(as_picks(blocks@).take(k as int + 1) =~= as_picks(blocks@).take(k as int).push(
            Pick::Entity(blocks@[k as int]),
        ));
        k = k + 1;
    }
    assert(gone@ =~= as_picks(blocks@));
    delete(world, &gone);
    let ghost cleared = world.view();
    let meshes: Vec<Mesh> = grouped(&open);
    let ghost groups = groups_of(open@);
    proof {
        groups_are_small(open@);
    }
    let mut i: usize = 0;
    while i < meshes.len()
        invariant
            i <= meshes@.len(),
            world.wf(),
            are_of(meshes@, groups),
            groups.len() <= open@.len() <= sides@.len(),
            was.meshes.len() + sides@.len() < u32::MAX,
            world.view().meshes.len() <= was.meshes.len() + i,
            (world.view(), made@) == laid(cleared, name@, groups, i as nat),
        decreases meshes@.len() - i,
    {
        assert(meshes@[i as int].is_of(groups[i as int]));
        let ghost so_far = world.view();
        match lay(world, name, meshes[i].material) {
            Some(entity) => {
                made.push(Pick::Entity(entity));
            },
            None => {},
        }
        proof {
            let (next, _) = laid_one(so_far, Seq::empty(), name@, groups[i as int].material);
            assert(world.view() == next);
        }
        i = i + 1;
    }
    let triangles: usize = open.len() * 2;
    Baked { made, meshes, blocks: blocks.len(), triangles, buried }
}

/// The triangles of a bake's meshes are two for each face that is written.
pub proof fn triangles_add_up(sides: Seq<Side>)
    requires
        4 * sides.len() <= u32::MAX,
    ensures
        triangles_in(groups_of(sides)) == 2 * sides.len(),
    decreases sides.len(),
{
    if sides.len() > 0 {
        let less = sides.drop_last();
        triangles_add_up(less);
        let so_far = groups_of(less);
        let face = sides.last();
        group_is_first(so_far, face.material);
        match group_at(so_far, face.material) {
            Some(index) => {
                triangles_with_one_more(so_far, index, face);
            },
            None => {
                let more = so_far.push(Group { material: face.material, faces: seq![face] });
                assert(more.drop_last() =~= so_far);
            },
        }
    }
}

/// The triangles of several groups.
pub open spec fn triangles_in(groups: Seq<Group>) -> nat
    decreases groups.len(),
{
    if groups.len() == 0 {
        0
    } else {
        triangles_in(groups.drop_last()) + 2 * groups.last().faces.len()
    }
}

/// One face more in a group is two triangles more.
proof fn triangles_with_one_more(groups: Seq<Group>, index: int, face: Side)
    requires
        0 <= index < groups.len(),
    ensures
        triangles_in(
            groups.update(
                index,
                Group { faces: groups[index].faces.push(face), ..groups[index] },
            ),
        ) == triangles_in(groups) + 2,
    decreases groups.len(),
{
    let more = groups.update(
        index,
        Group { faces: groups[index].faces.push(face), ..groups[index] },
    );
    if index == groups.len() - 1 {
        assert(more.drop_last() =~= groups.drop_last());
    } else {
        triangles_with_one_more(groups.drop_last(), index, face);
        assert(more.drop_last() =~= groups.drop_last().update(
            index,
            Group { faces: groups[index].faces.push(face), ..groups[index] },
        ));
    }
}

/// What is left of several sides is no more than there were.
proof fn fewer_are_left(sides: Seq<Side>, wanted: spec_fn(Side) -> bool)
    ensures
        sides.filter(wanted).len() <= sides.len(),
    decreases sides.len(),
{
    reveal(Seq::filter);
    if sides.len() > 0 {
        fewer_are_left(sides.drop_last(), wanted);
    }
}

/// Laying out so many materials registers no more meshes than that.
proof fn laying_registers(world: Worldly, name: Seq<char>, groups: Seq<Group>, count: nat)
    ensures
        laid(world, name, groups, count).0.meshes.len() <= world.meshes.len() + count,
    decreases count,
{
    if count > 0 {
        let less = (count - 1) as nat;
        laying_registers(world, name, groups, less);
        let (so_far, made) = laid(world, name, groups, less);
        let material = groups[count - 1].material;
        let under = mesh_name(so_far.materials, name, material);
        let more = inserted(so_far.meshes, known(under, true));
        numbered_is_first(so_far.meshes, under, 1);
        assert(more.len() <= so_far.meshes.len() + 1);
        assert(laid(world, name, groups, count) == laid_one(so_far, made, name, material));
        assert(laid(world, name, groups, count).0.meshes == more);
    }
}

/// A bake registers no more meshes than it is given sides.
pub proof fn a_bake_registers_few(
    world: Worldly,
    picks: Seq<Pick>,
    sides: Seq<Side>,
    name: Seq<char>,
)
    ensures
        baked_world(world, picks, sides, name).0.meshes.len() <= world.meshes.len() + sides.len(),
{
    let groups = groups_of(open_sides(sides));
    fewer_are_left(sides, |side: Side| crowd(sides, side.place) == 1);
    groups_are_small(open_sides(sides));
    let blocks = blocks_of(world.scene, picks);
    laying_registers(
        Worldly { scene: deleted_from(world.scene, as_picks(blocks)), ..world },
        name,
        groups,
        groups.len(),
    );
}

/// Each face is written as its own four corners in their order, pointing where
/// it points, each numbered as the face counts it.
pub proof fn a_face_is_its_four_corners(faces: Seq<Side>, i: int)
    requires
        0 <= i < faces.len(),
    ensures
        ({
            let all = corners_of(faces);
            let face = faces[i];
            &&& all.len() == 4 * faces.len()
            &&& all[4 * i].position == face.first && all[4 * i].corner == 0
            &&& all[4 * i + 1].position == face.second && all[4 * i + 1].corner == 1
            &&& all[4 * i + 2].position == face.third && all[4 * i + 2].corner == 2
            &&& all[4 * i + 3].position == face.fourth && all[4 * i + 3].corner == 3
            &&& all[4 * i].normal == face.normal && all[4 * i + 1].normal == face.normal
            &&& all[4 * i + 2].normal == face.normal && all[4 * i + 3].normal == face.normal
        }),
    decreases faces.len(),
{
    let less = faces.drop_last();
    corners_are_four(faces);
    corners_are_four(less);
    if i < less.len() {
        a_face_is_its_four_corners(less, i);
        assert(less[i] == faces[i]);
    }
}

/// Each face is two triangles of its own corners, wound as the face is: the
/// first, second and third, and the first, third and fourth.
pub proof fn a_face_is_two_triangles(count: nat, i: int)
    requires
        0 <= i < count,
        4 * count <= u32::MAX,
    ensures
        ({
            let all = triangles_of(count);
            &&& all.len() == 6 * count
            &&& all[6 * i] == 4 * i
            &&& all[6 * i + 1] == 4 * i + 1
            &&& all[6 * i + 2] == 4 * i + 2
            &&& all[6 * i + 3] == 4 * i
            &&& all[6 * i + 4] == 4 * i + 2
            &&& all[6 * i + 5] == 4 * i + 3
        }),
    decreases count,
{
    let less = (count - 1) as nat;
    triangles_are_two(count);
    triangles_are_two(less);
    if i < less {
        a_face_is_two_triangles(less, i);
    }
}

/// A face given to a block is where it was reckoned to be, and of the block's
/// own material.
pub proof fn a_face_is_where_it_was_reckoned(scene: Described, walls: Walls, k: int)
    requires
        0 <= k < 6,
    ensures
        ({
            let side = wall_sides(scene, walls)[k];
            let face = walls.faces@[k];
            &&& side.place == face.place
            &&& side.normal == face.normal
            &&& side.first == face.first
            &&& side.second == face.second
            &&& side.third == face.third
            &&& side.fourth == face.fourth
            &&& side.material == thing_at(scene.entities, walls.block).facts.material
        }),
{
}

} // verus!
