//! What is done to what is picked: renaming, moving, deleting, copying, and
//! putting new things in the world.

use vstd::prelude::*;
use vstd::string::*;
use crate::select::Pick;
use crate::table::{
    despawned, emptied, lives, living, living_resolves, replaced, sound, thing_at, Facts, Handle,
    Standing, Table, Thing,
};
use crate::text::part;
use crate::tree::{
    above, below, branch, deepens, hangs, hangs_off, hangs_under, hung, may_hang, parent, parent_of, rooted,
    set_parent, the_walk_finds_it, Entities,
};
use crate::world::{
    Body, BodyId, Described, Entity, EntityId, Joint, JointId, Scene, Transform, World, Worldly,
    MAX_BODIES, MAX_ENTITIES, MAX_JOINTS,
};

verus! {

/// The bodies of a world.
pub type Bodies = Seq<Standing<Body>>;

/// The joints of a world.
pub type Joints = Seq<Standing<Joint>>;

/// What a deletion took with it.
#[derive(Clone, Copy, Debug, PartialEq, Eq, Structural)]
pub struct Deleted {
    /// Entities, the selected ones and everything hanging off them.
    pub entities: usize,
    /// Bodies, the selected ones and every one driving an entity that went.
    pub bodies: usize,
    /// Joints, the selected ones and every one holding a body that went.
    pub joints: usize,
}

impl Default for Deleted {
    fn default() -> (result: Deleted)
        ensures
            result == (Deleted { entities: 0, bodies: 0, joints: 0 }),
    {
        Deleted { entities: 0, bodies: 0, joints: 0 }
    }
}

/// Whether a pick reaches an entity: by being it, or something it hangs off.
pub open spec fn reaches(entities: Entities, pick: Pick, id: EntityId) -> bool {
    match pick {
        Pick::Entity(top) => top == id || (lives(entities, top) && hangs(entities, id, top)),
        _ => false,
    }
}

/// Whether an entity is picked, or hangs off one that is.
pub open spec fn entity_taken(entities: Entities, picks: Seq<Pick>, id: EntityId) -> bool {
    &&& lives(entities, id)
    &&& exists|i: int| 0 <= i < picks.len() && reaches(entities, #[trigger] picks[i], id)
}

/// Whether a body is picked, or drives an entity that is taken.
pub open spec fn body_taken(scene: Described, picks: Seq<Pick>, id: BodyId) -> bool {
    &&& lives(scene.bodies, id)
    &&& {
        ||| picks.contains(Pick::Body(id))
        ||| entity_taken(scene.entities, picks, thing_at(scene.bodies, id).facts.entity)
    }
}

/// Whether a joint is picked, or holds a body that is taken.
pub open spec fn joint_taken(scene: Described, picks: Seq<Pick>, id: JointId) -> bool {
    &&& lives(scene.joints, id)
    &&& {
        ||| picks.contains(Pick::Joint(id))
        ||| body_taken(scene, picks, thing_at(scene.joints, id).facts.first)
        ||| body_taken(scene, picks, thing_at(scene.joints, id).facts.second)
    }
}

/// The handle of what stands in a slot.
pub open spec fn handle_in<F>(table: Seq<Standing<F>>, slot: int) -> Handle {
    Handle { slot: slot as u32, generation: table[slot].generation }
}

/// A table without some of its things.
pub open spec fn without<F>(table: Seq<Standing<F>>, gone: spec_fn(Handle) -> bool) -> Seq<
    Standing<F>,
> {
    Seq::new(
        table.len(),
        |i: int|
            if table[i].thing is Some && gone(handle_in(table, i)) {
                emptied(table[i])
            } else {
                table[i]
            },
    )
}

/// A table without several things, taken out one after the other.
pub open spec fn despawned_all<F>(table: Seq<Standing<F>>, ids: Seq<Handle>) -> Seq<Standing<F>>
    decreases ids.len(),
{
    if ids.len() == 0 {
        table
    } else {
        despawned(despawned_all(table, ids.drop_last()), ids.last())
    }
}

/// Taking things out one after the other leaves the table without them.
proof fn despawned_one_by_one<F>(table: Seq<Standing<F>>, ids: Seq<Handle>)
    requires
        table.len() <= u32::MAX,
    ensures
        despawned_all(table, ids) == without(table, |id: Handle| ids.contains(id)),
    decreases ids.len(),
{
    let gone = |id: Handle| ids.contains(id);
    if ids.len() == 0 {
        assert(without(table, gone) =~= table);
    } else {
        let less = ids.drop_last();
        let fewer = |id: Handle| less.contains(id);
        despawned_one_by_one(table, less);
        let part = despawned_all(table, less);
        let all = despawned(part, ids.last());
        assert forall|i: int| 0 <= i < table.len() implies all[i] == without(table, gone)[i] by {
            let id = handle_in(table, i);
            assert(part[i] == without(table, fewer)[i]);
            if less.contains(id) {
                let k = choose|k: int| 0 <= k < less.len() && less[k] == id;
                assert(ids[k] == id);
            }
            if ids.contains(id) && !less.contains(id) {
                let k = choose|k: int| 0 <= k < ids.len() && ids[k] == id;
                if k < less.len() {
                    assert(less[k] == id);
                }
                assert(id == ids.last());
            }
            if id == ids.last() {
                assert(ids[ids.len() - 1] == id);
            }
        }
        assert(all =~= without(table, gone));
    }
}

/// What a table is without things depends only on which of its own go.
proof fn without_same<F>(
    table: Seq<Standing<F>>,
    one: spec_fn(Handle) -> bool,
    other: spec_fn(Handle) -> bool,
)
    requires
        table.len() <= u32::MAX,
        forall|id: Handle| lives(table, id) ==> one(id) == #[trigger] other(id),
    ensures
        without(table, one) == without(table, other),
{
    assert forall|i: int| 0 <= i < table.len() implies without(table, one)[i] == without(
        table,
        other,
    )[i] by {
        let id = handle_in(table, i);
        if table[i].thing is Some {
            assert(lives(table, id));
            assert(one(id) == other(id));
        }
    }
    assert(without(table, one) =~= without(table, other));
}

/// A table without some of its things is as tables are, and every other
/// handle resolves to what it did.
pub proof fn without_keeps_the_rest<F>(
    table: Seq<Standing<F>>,
    limit: nat,
    gone: spec_fn(Handle) -> bool,
)
    requires
        sound(table, limit),
    ensures
        sound(without(table, gone), limit),
        forall|id: Handle|
            #[trigger] lives(without(table, gone), id) <==> lives(table, id) && !gone(id),
        forall|id: Handle|
            lives(without(table, gone), id) ==> #[trigger] thing_at(without(table, gone), id)
                == thing_at(table, id),
{
    let after = without(table, gone);
    assert forall|i: int| 0 <= i < after.len() implies (#[trigger] after[i]).generation >= 1 && (
    after[i].thing is Some ==> after[i].generation < u32::MAX) by {
        assert(table[i].generation >= 1);
    }
    assert forall|id: Handle| #[trigger] lives(after, id) <==> lives(table, id) && !gone(id) by {
        if id.slot < table.len() {
            assert(table[id.slot as int].generation >= 1);
            assert(table[id.slot as int].thing is Some ==> handle_in(table, id.slot as int)
                == (Handle { slot: id.slot, generation: table[id.slot as int].generation }));
        }
    }
}

/// Takes several things out of a table.
fn despawn_all<F: Facts>(table: &mut Table<F>, ids: &Vec<Handle>)
    requires
        old(table).wf(),
    ensures
        final(table).wf(),
        final(table).room() == old(table).room(),
        final(table).view() == without(old(table).view(), |id: Handle| ids@.contains(id)),
{
    let ghost was = table.view();
    let mut i: usize = 0;
    assert(ids@.take(0) =~= Seq::empty());
    while i < ids.len()
        invariant
            i <= ids@.len(),
            table.wf(),
            table.room() == old(table).room(),
            table.view() == despawned_all(was, ids@.take(i as int)),
        decreases ids@.len() - i,
    {
        proof {
            assert(ids@.take(i as int + 1).drop_last() =~= ids@.take(i as int));
            assert(ids@.take(i as int + 1).last() == ids@[i as int]);
        }
        table.despawn(ids[i]);
        i = i + 1;
    }
    assert(ids@.take(i as int) =~= ids@);
    proof {
        despawned_one_by_one(was, ids@);
    }
}

/// Whether an entity is picked, or hangs off one that is.
fn is_taken(entities: &Table<Entity>, picks: &Vec<Pick>, id: EntityId) -> (result: bool)
    ensures
        result == entity_taken(entities.view(), picks@, id),
{
    if !entities.alive(id) {
        return false;
    }
    let mut i: usize = 0;
    while i < picks.len()
        invariant
            i <= picks@.len(),
            lives(entities.view(), id),
            forall|k: int| 0 <= k < i ==> !reaches(entities.view(), #[trigger] picks@[k], id),
        decreases picks@.len() - i,
    {
        let hit: bool = match picks[i] {
            Pick::Entity(top) => top == id || (entities.alive(top) && hangs_off(entities, id, top)),
            _ => false,
        };
        if hit {
            assert(reaches(entities.view(), picks@[i as int], id));
            return true;
        }
        i = i + 1;
    }
    false
}

/// Every entity picked, with everything hanging off each: once, alive, in
/// the order of their slots.
pub fn branches(entities: &Table<Entity>, picks: &Vec<Pick>) -> (result: Vec<EntityId>)
    requires
        entities.wf(),
    ensures
        result@ == living(entities.view()).filter(
            |id: EntityId| entity_taken(entities.view(), picks@, id),
        ),
{
    let ids: Vec<EntityId> = entities.ids();
    let ghost all = ids@;
    let ghost taken = |id: EntityId| entity_taken(entities.view(), picks@, id);
    let mut found: Vec<EntityId> = Vec::new();
    let mut i: usize = 0;
    proof {
        reveal(Seq::filter);
        assert(all.take(0).filter(taken) =~= Seq::empty());
    }
    while i < ids.len()
        invariant
            i <= ids@.len(),
            all == ids@,
            taken == (|id: EntityId| entity_taken(entities.view(), picks@, id)),
            found@ == all.take(i as int).filter(taken),
        decreases ids@.len() - i,
    {
        proof {
            reveal(Seq::filter);
            assert(all.take(i as int + 1).drop_last() =~= all.take(i as int));
            assert(all.take(i as int + 1).last() == all[i as int]);
        }
        if is_taken(entities, picks, ids[i]) {
            found.push(ids[i]);
        }
        i = i + 1;
    }
    assert(all.take(i as int) =~= all);
    found
}

/// Whether a thing is among several picked.
fn picked(picks: &Vec<Pick>, pick: Pick) -> (result: bool)
    ensures
        result == picks@.contains(pick),
{
    let mut i: usize = 0;
    while i < picks.len()
        invariant
            i <= picks@.len(),
            forall|k: int| 0 <= k < i ==> picks@[k] != pick,
        decreases picks@.len() - i,
    {
        if picks[i] == pick {
            return true;
        }
        i = i + 1;
    }
    false
}

/// Whether a handle is among several.
fn among(ids: &Vec<Handle>, id: Handle) -> (result: bool)
    ensures
        result == ids@.contains(id),
{
    let mut i: usize = 0;
    while i < ids.len()
        invariant
            i <= ids@.len(),
            forall|k: int| 0 <= k < i ==> ids@[k] != id,
        decreases ids@.len() - i,
    {
        if ids[i] == id {
            return true;
        }
        i = i + 1;
    }
    false
}

/// What is kept of several handles is what was among them and is wanted.
pub proof fn filter_contains(ids: Seq<Handle>, wanted: spec_fn(Handle) -> bool)
    ensures
        forall|id: Handle|
            #[trigger] ids.filter(wanted).contains(id) <==> ids.contains(id) && wanted(id),
    decreases ids.len(),
{
    reveal(Seq::filter);
    if ids.len() > 0 {
        let less = ids.drop_last();
        filter_contains(less, wanted);
        let kept = ids.filter(wanted);
        let head = less.filter(wanted);
        assert forall|id: Handle| #[trigger] kept.contains(id) <==> ids.contains(id) && wanted(
            id,
        ) by {
            if ids.contains(id) {
                let k = choose|k: int| 0 <= k < ids.len() && ids[k] == id;
                if k < less.len() {
                    assert(less[k] == id);
                }
            }
            if less.contains(id) {
                let k = choose|k: int| 0 <= k < less.len() && less[k] == id;
                assert(ids[k] == id);
            }
            if kept.contains(id) {
                let k = choose|k: int| 0 <= k < kept.len() && kept[k] == id;
                if k < head.len() {
                    assert(head[k] == id);
                    assert(head.contains(id));
                } else {
                    assert(ids[ids.len() - 1] == id);
                }
            }
            if head.contains(id) {
                let k = choose|k: int| 0 <= k < head.len() && head[k] == id;
                assert(kept[k] == id);
            }
            if ids.last() == id && wanted(id) {
                assert(kept[head.len() as int] == id);
            }
        }
    }
}

/// The bodies that go with entities that go, and those picked on their own.
fn bodies_going(bodies: &Table<Body>, entities: &Vec<EntityId>, picks: &Vec<Pick>) -> (result: Vec<
    BodyId,
>)
    requires
        bodies.wf(),
    ensures
        result@ == living(bodies.view()).filter(
            |id: BodyId|
                picks@.contains(Pick::Body(id)) || entities@.contains(
                    thing_at(bodies.view(), id).facts.entity,
                ),
        ),
{
    let ids: Vec<BodyId> = bodies.ids();
    let ghost all = ids@;
    let ghost goes = |id: BodyId|
        picks@.contains(Pick::Body(id)) || entities@.contains(
            thing_at(bodies.view(), id).facts.entity,
        );
    let mut found: Vec<BodyId> = Vec::new();
    let mut i: usize = 0;
    proof {
        reveal(Seq::filter);
        living_resolves(bodies.view());
        assert forall|k: int| 0 <= k < all.len() implies lives(bodies.view(), #[trigger] all[k]) by {
            assert(all.contains(all[k]));
        }
        assert(all.take(0).filter(goes) =~= Seq::empty());
    }
    while i < ids.len()
        invariant
            i <= ids@.len(),
            all == ids@,
            forall|k: int| 0 <= k < all.len() ==> lives(bodies.view(), #[trigger] all[k]),
            goes == (|id: BodyId|
                picks@.contains(Pick::Body(id)) || entities@.contains(
                    thing_at(bodies.view(), id).facts.entity,
                )),
            found@ == all.take(i as int).filter(goes),
        decreases ids@.len() - i,
    {
        proof {
            reveal(Seq::filter);
            assert(all.take(i as int + 1).drop_last() =~= all.take(i as int));
            assert(all.take(i as int + 1).last() == all[i as int]);
            assert(lives(bodies.view(), all[i as int]));
        }
        let drives: bool = match bodies.get(ids[i]) {
            Some(facts) => among(entities, facts.entity),
            None => false,
        };
        if drives || picked(picks, Pick::Body(ids[i])) {
            found.push(ids[i]);
        }
        i = i + 1;
    }
    assert(all.take(i as int) =~= all);
    found
}

/// The joints that go with bodies that go, and those picked on their own.
fn joints_going(joints: &Table<Joint>, bodies: &Vec<BodyId>, picks: &Vec<Pick>) -> (result: Vec<
    JointId,
>)
    requires
        joints.wf(),
    ensures
        result@ == living(joints.view()).filter(
            |id: JointId|
                picks@.contains(Pick::Joint(id)) || bodies@.contains(
                    thing_at(joints.view(), id).facts.first,
                ) || bodies@.contains(thing_at(joints.view(), id).facts.second),
        ),
{
    let ids: Vec<JointId> = joints.ids();
    let ghost all = ids@;
    let ghost goes = |id: JointId|
        picks@.contains(Pick::Joint(id)) || bodies@.contains(
            thing_at(joints.view(), id).facts.first,
        ) || bodies@.contains(thing_at(joints.view(), id).facts.second);
    let mut found: Vec<JointId> = Vec::new();
    let mut i: usize = 0;
    proof {
        reveal(Seq::filter);
        living_resolves(joints.view());
        assert forall|k: int| 0 <= k < all.len() implies lives(joints.view(), #[trigger] all[k]) by {
            assert(all.contains(all[k]));
        }
        assert(all.take(0).filter(goes) =~= Seq::empty());
    }
    while i < ids.len()
        invariant
            i <= ids@.len(),
            all == ids@,
            forall|k: int| 0 <= k < all.len() ==> lives(joints.view(), #[trigger] all[k]),
            goes == (|id: JointId|
                picks@.contains(Pick::Joint(id)) || bodies@.contains(
                    thing_at(joints.view(), id).facts.first,
                ) || bodies@.contains(thing_at(joints.view(), id).facts.second)),
            found@ == all.take(i as int).filter(goes),
        decreases ids@.len() - i,
    {
        proof {
            reveal(Seq::filter);
            assert(all.take(i as int + 1).drop_last() =~= all.take(i as int));
            assert(all.take(i as int + 1).last() == all[i as int]);
            assert(lives(joints.view(), all[i as int]));
        }
        let holds: bool = match joints.get(ids[i]) {
            Some(facts) => among(bodies, facts.first) || among(bodies, facts.second),
            None => false,
        };
        if holds || picked(picks, Pick::Joint(ids[i])) {
            found.push(ids[i]);
        }
        i = i + 1;
    }
    assert(all.take(i as int) =~= all);
    found
}

/// A scene without what is picked and what could not stand without it.
pub open spec fn deleted_from(scene: Described, picks: Seq<Pick>) -> Described {
    Described {
        entities: without(
            scene.entities,
            |id: EntityId| entity_taken(scene.entities, picks, id),
        ),
        bodies: without(scene.bodies, |id: BodyId| body_taken(scene, picks, id)),
        joints: without(scene.joints, |id: JointId| joint_taken(scene, picks, id)),
        ..scene
    }
}

/// Filtering by two questions that agree on everything asked gives the same.
proof fn filter_same(
    ids: Seq<Handle>,
    one: spec_fn(Handle) -> bool,
    other: spec_fn(Handle) -> bool,
)
    requires
        forall|i: int| 0 <= i < ids.len() ==> one(#[trigger] ids[i]) == other(ids[i]),
    ensures
        ids.filter(one) == ids.filter(other),
    decreases ids.len(),
{
    reveal(Seq::filter);
    if ids.len() > 0 {
        let less = ids.drop_last();
        assert forall|i: int| 0 <= i < less.len() implies one(#[trigger] less[i]) == other(
            less[i],
        ) by {
            assert(less[i] == ids[i]);
        }
        filter_same(less, one, other);
        assert(one(ids[ids.len() - 1]) == other(ids[ids.len() - 1]));
    }
}

/// Removes what is picked, and everything that could not stand without it:
/// an entity with everything hanging off it and the bodies driving any of
/// them, a body with the joints holding it, a joint alone. How many of each
/// went.
pub fn delete(world: &mut World, picks: &Vec<Pick>) -> (result: Deleted)
    requires
        old(world).wf(),
    ensures
        final(world).wf(),
        final(world).view() == (Worldly {
            scene: deleted_from(old(world).view().scene, picks@),
            ..old(world).view()
        }),
        result.entities == living(old(world).view().scene.entities).filter(
            |id: EntityId| entity_taken(old(world).view().scene.entities, picks@, id),
        ).len(),
        result.bodies == living(old(world).view().scene.bodies).filter(
            |id: BodyId| body_taken(old(world).view().scene, picks@, id),
        ).len(),
        result.joints == living(old(world).view().scene.joints).filter(
            |id: JointId| joint_taken(old(world).view().scene, picks@, id),
        ).len(),
{
    let ghost scene = world.view().scene;
    let entities: Vec<EntityId> = branches(&world.scene.entities, picks);
    let bodies: Vec<BodyId> = bodies_going(&world.scene.bodies, &entities, picks);
    let joints: Vec<JointId> = joints_going(&world.scene.joints, &bodies, picks);
    proof {
        let entity_goes = |id: EntityId| entity_taken(scene.entities, picks@, id);
        let body_goes = |id: BodyId| body_taken(scene, picks@, id);
        let joint_goes = |id: JointId| joint_taken(scene, picks@, id);
        let body_drives = |id: BodyId|
            picks@.contains(Pick::Body(id)) || entities@.contains(
                thing_at(scene.bodies, id).facts.entity,
            );
        let joint_holds = |id: JointId|
            picks@.contains(Pick::Joint(id)) || bodies@.contains(
                thing_at(scene.joints, id).facts.first,
            ) || bodies@.contains(thing_at(scene.joints, id).facts.second);
        living_resolves(scene.entities);
        living_resolves(scene.bodies);
        living_resolves(scene.joints);
        filter_contains(living(scene.entities), entity_goes);
        assert forall|id: EntityId| #[trigger] entities@.contains(id) <==> entity_taken(
            scene.entities,
            picks@,
            id,
        ) by {
            assert(living(scene.entities).contains(id) <==> lives(scene.entities, id));
        }
        assert forall|i: int| 0 <= i < living(scene.bodies).len() implies body_drives(
            #[trigger] living(scene.bodies)[i],
        ) == body_goes(living(scene.bodies)[i]) by {
            let id = living(scene.bodies)[i];
            assert(living(scene.bodies).contains(id));
            assert(lives(scene.bodies, id));
            let drives = thing_at(scene.bodies, id).facts.entity;
            assert(entities@.contains(drives) <==> entity_taken(scene.entities, picks@, drives));
        }
        filter_same(living(scene.bodies), body_drives, body_goes);
        filter_contains(living(scene.bodies), body_goes);
        assert forall|id: BodyId| #[trigger] bodies@.contains(id) <==> body_taken(
            scene,
            picks@,
            id,
        ) by {
            assert(living(scene.bodies).contains(id) <==> lives(scene.bodies, id));
        }
        assert forall|i: int| 0 <= i < living(scene.joints).len() implies joint_holds(
            #[trigger] living(scene.joints)[i],
        ) == joint_goes(living(scene.joints)[i]) by {
            let id = living(scene.joints)[i];
            assert(living(scene.joints).contains(id));
            assert(lives(scene.joints, id));
            let first = thing_at(scene.joints, id).facts.first;
            let second = thing_at(scene.joints, id).facts.second;
            assert(bodies@.contains(first) <==> body_taken(scene, picks@, first));
            assert(bodies@.contains(second) <==> body_taken(scene, picks@, second));
        }
        filter_same(living(scene.joints), joint_holds, joint_goes);
        filter_contains(living(scene.joints), joint_goes);
        assert forall|id: JointId| #[trigger] joints@.contains(id) <==> joint_taken(
            scene,
            picks@,
            id,
        ) by {
            assert(living(scene.joints).contains(id) <==> lives(scene.joints, id));
        }
        without_same(scene.entities, |id: Handle| entities@.contains(id), entity_goes);
        without_same(scene.bodies, |id: Handle| bodies@.contains(id), body_goes);
        without_same(scene.joints, |id: Handle| joints@.contains(id), joint_goes);
    }
    despawn_all(&mut world.scene.joints, &joints);
    despawn_all(&mut world.scene.bodies, &bodies);
    despawn_all(&mut world.scene.entities, &entities);
    Deleted { entities: entities.len(), bodies: bodies.len(), joints: joints.len() }
}

/// After a deletion no body drives an entity that went, no joint holds a
/// body that went, nothing hangs off an entity that went, and what was not
/// taken stands as it stood.
pub proof fn deletion_leaves_nothing_behind(scene: Described, picks: Seq<Pick>)
    requires
        sound(scene.entities, MAX_ENTITIES as nat),
        sound(scene.bodies, MAX_BODIES as nat),
        sound(scene.joints, MAX_JOINTS as nat),
        rooted(scene.entities),
    ensures
        ({
            let after = deleted_from(scene, picks);
            &&& forall|id: BodyId| #[trigger]
                lives(after.bodies, id) && lives(
                    scene.entities,
                    thing_at(after.bodies, id).facts.entity,
                ) ==> lives(after.entities, thing_at(after.bodies, id).facts.entity)
            &&& forall|id: JointId| #[trigger]
                lives(after.joints, id) ==> {
                    let joint = thing_at(after.joints, id).facts;
                    &&& lives(scene.bodies, joint.first) ==> lives(after.bodies, joint.first)
                    &&& lives(scene.bodies, joint.second) ==> lives(after.bodies, joint.second)
                }
            &&& forall|id: EntityId| #[trigger]
                lives(after.entities, id) ==> parent_of(after.entities, id) == parent_of(
                    scene.entities,
                    id,
                )
            &&& forall|id: EntityId| #[trigger]
                lives(after.entities, id) ==> lives(scene.entities, id) && thing_at(
                    after.entities,
                    id,
                ) == thing_at(scene.entities, id)
            &&& rooted(after.entities)
        }),
{
    let after = deleted_from(scene, picks);
    let entity_goes = |id: EntityId| entity_taken(scene.entities, picks, id);
    let body_goes = |id: BodyId| body_taken(scene, picks, id);
    let joint_goes = |id: JointId| joint_taken(scene, picks, id);
    without_keeps_the_rest(scene.entities, MAX_ENTITIES as nat, entity_goes);
    without_keeps_the_rest(scene.bodies, MAX_BODIES as nat, body_goes);
    without_keeps_the_rest(scene.joints, MAX_JOINTS as nat, joint_goes);
    assert forall|id: BodyId| #[trigger]
        lives(after.bodies, id) && lives(
            scene.entities,
            thing_at(after.bodies, id).facts.entity,
        ) implies lives(after.entities, thing_at(after.bodies, id).facts.entity) by {
        assert(thing_at(after.bodies, id) == thing_at(scene.bodies, id));
    }
    assert forall|id: JointId| #[trigger] lives(after.joints, id) implies {
        let joint = thing_at(after.joints, id).facts;
        &&& lives(scene.bodies, joint.first) ==> lives(after.bodies, joint.first)
        &&& lives(scene.bodies, joint.second) ==> lives(after.bodies, joint.second)
    } by {
        assert(thing_at(after.joints, id) == thing_at(scene.joints, id));
    }
    assert forall|id: EntityId| #[trigger] lives(after.entities, id) implies parent_of(
        after.entities,
        id,
    ) == parent_of(scene.entities, id) by {
        assert(thing_at(after.entities, id) == thing_at(scene.entities, id));
        let up = thing_at(scene.entities, id).facts.parent;
        if lives(scene.entities, up) && !lives(after.entities, up) {
            taken_with_its_parent(scene.entities, picks, id, up);
        }
    }
    assert forall|id: EntityId| #[trigger] lives(after.entities, id) implies lives(
        scene.entities,
        id,
    ) && thing_at(after.entities, id) == thing_at(scene.entities, id) by {
        assert(thing_at(after.entities, id) == thing_at(scene.entities, id));
    }
    let depth = choose|depth: spec_fn(EntityId) -> nat| deepens(scene.entities, depth);
    assert forall|id: EntityId|
        lives(after.entities, id) && parent_of(after.entities, id).some() implies depth(
        #[trigger] parent_of(after.entities, id),
    ) < depth(id) by {
        assert(parent_of(after.entities, id) == parent_of(scene.entities, id));
    }
    assert(deepens(after.entities, depth));
}

/// What hangs off an entity that is taken is taken.
proof fn taken_with_its_parent(entities: Entities, picks: Seq<Pick>, id: EntityId, up: EntityId)
    requires
        sound(entities, MAX_ENTITIES as nat),
        rooted(entities),
        lives(entities, id),
        parent_of(entities, id) == up,
        entity_taken(entities, picks, up),
    ensures
        entity_taken(entities, picks, id),
{
    let i = choose|i: int| 0 <= i < picks.len() && reaches(entities, #[trigger] picks[i], up);
    let top = picks[i]->Entity_0;
    assert(entities[up.slot as int].generation >= 1);
    the_walk_finds_it(entities, id, top);
    the_walk_finds_it(entities, up, top);
    assert(above(entities, up, 0) == up);
    if top == up {
        assert(above(entities, id, 1) == top);
    } else {
        let count = choose|count: nat|
            count > 0 && #[trigger] above(entities, up, count) == top;
        assert(above(entities, id, count + 1) == top);
    }
    assert(below(entities, id, top));
    assert(reaches(entities, picks[i], id));
}

/// Every entity hanging off one, directly or through others, in the order of
/// their slots.
pub fn descendants(entities: &Table<Entity>, id: EntityId) -> (result: Vec<EntityId>)
    requires
        entities.wf(),
    ensures
        result@ == branch(entities.view(), id),
{
    let mut found: Vec<EntityId> = Vec::new();
    if !entities.alive(id) {
        return found;
    }
    let ids: Vec<EntityId> = entities.ids();
    let ghost all = ids@;
    let ghost table = entities.view();
    let ghost wanted = |child: EntityId| hangs_under(table, child, id);
    let mut i: usize = 0;
    proof {
        reveal(Seq::filter);
        assert(all.take(0).filter(wanted) =~= Seq::empty());
    }
    while i < ids.len()
        invariant
            i <= ids@.len(),
            all == ids@,
            table == entities.view(),
            wanted == (|child: EntityId| hangs_under(table, child, id)),
            found@ == all.take(i as int).filter(wanted),
        decreases ids@.len() - i,
    {
        proof {
            reveal(Seq::filter);
            assert(all.take(i as int + 1).drop_last() =~= all.take(i as int));
            assert(all.take(i as int + 1).last() == all[i as int]);
        }
        if ids[i] != id && hangs_off(entities, ids[i], id) {
            found.push(ids[i]);
        }
        i = i + 1;
    }
    assert(all.take(i as int) =~= all);
    found
}

/// What hangs off an entity is every other living entity below it, and
/// nothing else.
pub proof fn descendants_hang_below(entities: Entities, id: EntityId, child: EntityId)
    requires
        sound(entities, MAX_ENTITIES as nat),
        rooted(entities),
        lives(entities, id),
    ensures
        branch(entities, id).contains(child) <==> lives(entities, child) && below(
            entities,
            child,
            id,
        ),
        !branch(entities, id).contains(id),
{
    let wanted = |child: EntityId| hangs_under(entities, child, id);
    living_resolves(entities);
    filter_contains(living(entities), wanted);
    the_walk_finds_it(entities, child, id);
    crate::tree::nothing_hangs_off_itself(entities, id);
    assert(branch(entities, id).contains(child) <==> living(entities).contains(child) && wanted(
        child,
    ));
    assert(branch(entities, id).contains(id) <==> living(entities).contains(id) && wanted(id));
}

/// The first of several bodies that drives an entity.
pub open spec fn first_driving(bodies: Bodies, ids: Seq<BodyId>, entity: EntityId) -> Option<BodyId>
    decreases ids.len(),
{
    if ids.len() == 0 {
        None
    } else if thing_at(bodies, ids[0]).facts.entity == entity {
        Some(ids[0])
    } else {
        first_driving(bodies, ids.drop_first(), entity)
    }
}

/// The body driving an entity, if one does: the first in the table. Nothing
/// is driven by nothing.
pub open spec fn driver_of(bodies: Bodies, entity: EntityId) -> Option<BodyId> {
    if entity.some() {
        first_driving(bodies, living(bodies), entity)
    } else {
        None
    }
}

/// The body driving an entity, if one does.
pub fn driver(bodies: &Table<Body>, entity: EntityId) -> (result: Option<BodyId>)
    requires
        bodies.wf(),
    ensures
        result == driver_of(bodies.view(), entity),
        result is Some ==> lives(bodies.view(), result->0),
{
    if !entity.is_some() {
        return None;
    }
    let ids: Vec<BodyId> = bodies.ids();
    let ghost all = ids@;
    let mut i: usize = 0;
    proof {
        living_resolves(bodies.view());
        assert forall|k: int| 0 <= k < all.len() implies lives(bodies.view(), #[trigger] all[k]) by {
            assert(all.contains(all[k]));
        }
        assert(all.skip(0) =~= all);
    }
    while i < ids.len()
        invariant
            i <= ids@.len(),
            all == ids@,
            all == living(bodies.view()),
            entity.some(),
            forall|k: int| 0 <= k < all.len() ==> lives(bodies.view(), #[trigger] all[k]),
            first_driving(bodies.view(), all, entity) == first_driving(
                bodies.view(),
                all.skip(i as int),
                entity,
            ),
        decreases ids@.len() - i,
    {
        assert(all.skip(i as int)[0] == all[i as int]);
        assert(all.skip(i as int).drop_first() =~= all.skip(i as int + 1));
        assert(lives(bodies.view(), all[i as int]));
        match bodies.get(ids[i]) {
            Some(facts) => {
                if facts.entity == entity {
                    return Some(ids[i]);
                }
            },
            None => {},
        }
        i = i + 1;
    }
    None
}

/// The entity a body drives, if it is still there.
pub open spec fn driven_by(scene: Described, body: BodyId) -> Option<EntityId> {
    if lives(scene.bodies, body) && lives(
        scene.entities,
        thing_at(scene.bodies, body).facts.entity,
    ) {
        Some(thing_at(scene.bodies, body).facts.entity)
    } else {
        None
    }
}

/// The entity a body drives, if it is still there.
pub fn drives(scene: &Scene, body: BodyId) -> (result: Option<EntityId>)
    ensures
        result == driven_by(scene.view(), body),
{
    match scene.bodies.get(body) {
        None => None,
        Some(facts) => {
            if scene.entities.alive(facts.entity) {
                Some(facts.entity)
            } else {
                None
            }
        },
    }
}

/// Renames whatever is picked. Whether the handle resolved; a material and a
/// model are called what their files are called.
pub fn rename(world: &mut World, at: Pick, name: &str) -> (result: bool)
    requires
        old(world).wf(),
    ensures
        final(world).wf(),
        result == match at {
            Pick::Entity(id) => lives(old(world).view().scene.entities, id),
            Pick::Body(id) => lives(old(world).view().scene.bodies, id),
            Pick::Joint(id) => lives(old(world).view().scene.joints, id),
            _ => false,
        },
        final(world).view() == (Worldly {
            scene: renamed(old(world).view().scene, at, name@),
            ..old(world).view()
        }),
{
    let ghost scene = world.view().scene;
    let result: bool = match at {
        Pick::Entity(id) => world.scene.entities.set_name(id, name),
        Pick::Body(id) => world.scene.bodies.set_name(id, name),
        Pick::Joint(id) => world.scene.joints.set_name(id, name),
        _ => false,
    };
    proof {
        renamed_is_sound(scene, at, name@);
    }
    result
}

/// A scene with something renamed.
pub open spec fn renamed(scene: Described, at: Pick, name: Seq<char>) -> Described {
    match at {
        Pick::Entity(id) => Described {
            entities: replaced(
                scene.entities,
                id,
                Thing { name, ..thing_at(scene.entities, id) },
            ),
            ..scene
        },
        Pick::Body(id) => Described {
            bodies: replaced(scene.bodies, id, Thing { name, ..thing_at(scene.bodies, id) }),
            ..scene
        },
        Pick::Joint(id) => Described {
            joints: replaced(scene.joints, id, Thing { name, ..thing_at(scene.joints, id) }),
            ..scene
        },
        _ => scene,
    }
}

/// A table with something in it replaced is as tables are.
pub proof fn replaced_is_sound<F>(
    table: Seq<Standing<F>>,
    limit: nat,
    id: Handle,
    thing: Thing<F>,
)
    requires
        sound(table, limit),
    ensures
        sound(replaced(table, id, thing), limit),
        forall|other: Handle|
            #[trigger] lives(replaced(table, id, thing), other) == lives(table, other),
{
    let after = replaced(table, id, thing);
    assert forall|i: int| 0 <= i < after.len() implies (#[trigger] after[i]).generation >= 1 && (
    after[i].thing is Some ==> after[i].generation < u32::MAX) by {
        assert(table[i].generation >= 1);
    }
}

/// Renaming something leaves the tables as tables are.
proof fn renamed_is_sound(scene: Described, at: Pick, name: Seq<char>)
    requires
        sound(scene.entities, MAX_ENTITIES as nat),
        sound(scene.bodies, MAX_BODIES as nat),
        sound(scene.joints, MAX_JOINTS as nat),
    ensures
        sound(renamed(scene, at, name).entities, MAX_ENTITIES as nat),
        sound(renamed(scene, at, name).bodies, MAX_BODIES as nat),
        sound(renamed(scene, at, name).joints, MAX_JOINTS as nat),
{
    match at {
        Pick::Entity(id) => {
            replaced_is_sound(
                scene.entities,
                MAX_ENTITIES as nat,
                id,
                Thing { name, ..thing_at(scene.entities, id) },
            );
        },
        Pick::Body(id) => {
            replaced_is_sound(
                scene.bodies,
                MAX_BODIES as nat,
                id,
                Thing { name, ..thing_at(scene.bodies, id) },
            );
        },
        Pick::Joint(id) => {
            replaced_is_sound(
                scene.joints,
                MAX_JOINTS as nat,
                id,
                Thing { name, ..thing_at(scene.joints, id) },
            );
        },
        _ => {},
    }
}

/// Where something is in its own terms: inside what it hangs off for an
/// entity, in the world for a body. A joint, a material and a model are not
/// anywhere.
pub fn local(world: &World, at: Pick) -> (result: Option<Transform>)
    ensures
        result == match at {
            Pick::Entity(id) => if lives(world.view().scene.entities, id) {
                Some(thing_at(world.view().scene.entities, id).facts.transform)
            } else {
                None
            },
            Pick::Body(id) => if lives(world.view().scene.bodies, id) {
                Some(thing_at(world.view().scene.bodies, id).facts.transform)
            } else {
                None
            },
            _ => None,
        },
{
    match at {
        Pick::Entity(id) => match world.scene.entities.get(id) {
            Some(facts) => Some(facts.transform),
            None => None,
        },
        Pick::Body(id) => match world.scene.bodies.get(id) {
            Some(facts) => Some(facts.transform),
            None => None,
        },
        _ => None,
    }
}

/// Entities with one of them standing elsewhere.
pub open spec fn stood(entities: Entities, id: EntityId, transform: Transform) -> Entities {
    replaced(
        entities,
        id,
        Thing {
            facts: Entity { transform, ..thing_at(entities, id).facts },
            ..thing_at(entities, id)
        },
    )
}

/// A scene with a body put somewhere, and the entity it drives with it.
pub open spec fn teleported(
    scene: Described,
    body: BodyId,
    put: Transform,
    inside: Transform,
) -> Described {
    let thing = thing_at(scene.bodies, body);
    if lives(scene.bodies, body) {
        Described {
            bodies: replaced(
                scene.bodies,
                body,
                Thing { facts: Body { transform: put, ..thing.facts }, ..thing },
            ),
            entities: if lives(scene.entities, thing.facts.entity) {
                stood(scene.entities, thing.facts.entity, inside)
            } else {
                scene.entities
            },
            ..scene
        }
    } else {
        scene
    }
}

/// A scene with something put somewhere, and everything describing it with
/// it: an entity with a body under it moves through the body.
pub open spec fn moved(scene: Described, at: Pick, put: Transform, inside: Transform) -> Described {
    match at {
        Pick::Entity(id) => match driver_of(scene.bodies, id) {
            Some(body) => teleported(scene, body, put, inside),
            None => Described { entities: stood(scene.entities, id, inside), ..scene },
        },
        Pick::Body(id) => teleported(scene, id, put, inside),
        _ => scene,
    }
}

/// Puts a body somewhere, and the entity it drives with it.
fn teleport(scene: &mut Scene, body: BodyId, put: Transform, inside: Transform) -> (result: bool)
    requires
        old(scene).wf(),
    ensures
        final(scene).wf(),
        final(scene).view() == teleported(old(scene).view(), body, put, inside),
        result == lives(old(scene).view().bodies, body),
{
    let ghost was = scene.view();
    match scene.bodies.get(body) {
        None => false,
        Some(facts) => {
            scene.bodies.set(body, Body { transform: put, ..facts });
            match scene.entities.get(facts.entity) {
                Some(entity) => {
                    scene.entities.set(facts.entity, Entity { transform: inside, ..entity });
                },
                None => {},
            }
            proof {
                let thing = thing_at(was.bodies, body);
                replaced_is_sound(
                    was.bodies,
                    MAX_BODIES as nat,
                    body,
                    Thing { facts: Body { transform: put, ..thing.facts }, ..thing },
                );
                let driven = thing_at(was.entities, facts.entity);
                replaced_is_sound(
                    was.entities,
                    MAX_ENTITIES as nat,
                    facts.entity,
                    Thing { facts: Entity { transform: inside, ..driven.facts }, ..driven },
                );
            }
            true
        },
    }
}

/// Puts something where it is asked to go, and everything describing it with
/// it. `put` is the place in the world, and `inside` the same place seen from
/// what the entity that moves hangs off. Whether anything was moved.
pub fn place(world: &mut World, at: Pick, put: Transform, inside: Transform) -> (result: bool)
    requires
        old(world).wf(),
    ensures
        final(world).wf(),
        final(world).view() == (Worldly {
            scene: moved(old(world).view().scene, at, put, inside),
            ..old(world).view()
        }),
        result == match at {
            Pick::Entity(id) => driver_of(old(world).view().scene.bodies, id) is Some || lives(
                old(world).view().scene.entities,
                id,
            ),
            Pick::Body(id) => lives(old(world).view().scene.bodies, id),
            _ => false,
        },
{
    let ghost scene = world.view().scene;
    match at {
        Pick::Entity(id) => {
            match driver(&world.scene.bodies, id) {
                Some(body) => teleport(&mut world.scene, body, put, inside),
                None => match world.scene.entities.get(id) {
                    Some(facts) => {
                        proof {
                            let thing = thing_at(scene.entities, id);
                            replaced_is_sound(
                                scene.entities,
                                MAX_ENTITIES as nat,
                                id,
                                Thing { facts: Entity { transform: inside, ..thing.facts }, ..thing },
                            );
                        }
                        world.scene.entities.set(id, Entity { transform: inside, ..facts })
                    },
                    None => false,
                },
            }
        },
        Pick::Body(id) => teleport(&mut world.scene, id, put, inside),
        _ => false,
    }
}

/// Moving an entity with a body under it moves both, and so does moving the
/// body: neither is left behind for the other to snap back to.
pub proof fn moving_moves_both(
    scene: Described,
    entity: EntityId,
    body: BodyId,
    put: Transform,
    inside: Transform,
)
    requires
        sound(scene.entities, MAX_ENTITIES as nat),
        sound(scene.bodies, MAX_BODIES as nat),
        lives(scene.entities, entity),
        lives(scene.bodies, body),
        driver_of(scene.bodies, entity) == Some(body),
        thing_at(scene.bodies, body).facts.entity == entity,
    ensures
        ({
            let after = moved(scene, Pick::Entity(entity), put, inside);
            &&& after == moved(scene, Pick::Body(body), put, inside)
            &&& lives(after.entities, entity) && lives(after.bodies, body)
            &&& thing_at(after.bodies, body).facts.transform == put
            &&& thing_at(after.entities, entity).facts.transform == inside
            &&& thing_at(after.bodies, body).facts.entity == entity
        }),
{
}

/// Hangs an entity off another, or stands it on its own, where `inside` is
/// its place seen from there: the thing stays where it is in the world and
/// only what it is measured from changes. Whether it was done.
pub fn hang(
    world: &mut World,
    child: EntityId,
    parent: EntityId,
    inside: Transform,
) -> (result: bool)
    requires
        old(world).wf(),
    ensures
        final(world).wf(),
        result == may_hang(old(world).view().scene.entities, child, parent),
        final(world).view() == (Worldly {
            scene: Described {
                entities: if result {
                    stood(hung(old(world).view().scene.entities, child, parent), child, inside)
                } else {
                    old(world).view().scene.entities
                },
                ..old(world).view().scene
            },
            ..old(world).view()
        }),
{
    let ghost was = world.view().scene.entities;
    if !set_parent(&mut world.scene.entities, child, parent) {
        return false;
    }
    let ghost mid = world.view().scene.entities;
    proof {
        let thing = thing_at(was, child);
        replaced_is_sound(
            was,
            MAX_ENTITIES as nat,
            child,
            Thing { facts: Entity { parent, ..thing.facts }, ..thing },
        );
        let now = thing_at(mid, child);
        replaced_is_sound(
            mid,
            MAX_ENTITIES as nat,
            child,
            Thing { facts: Entity { transform: inside, ..now.facts }, ..now },
        );
        assert(lives(mid, child));
    }
    match world.scene.entities.get(child) {
        Some(facts) => {
            world.scene.entities.set(child, Entity { transform: inside, ..facts });
        },
        None => {},
    }
    true
}

} // verus!
