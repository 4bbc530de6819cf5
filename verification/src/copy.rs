//! Copying what is picked, beside the original and in its place.

use vstd::prelude::*;
use crate::edit::{branches, entity_taken, Bodies, Joints};
use crate::section::PAINT;
use crate::select::Pick;
use crate::table::{
    grown, lives, living, living_resolves, next_handle, room_left, sheet_put, sound, spawned,
    spawned_is_new, spawning_grows, spawning_takes_room, texts, thing_at, Handle, Table, Thing,
};
use crate::tree::{
    above, below, hangs, hanging_keeps_roots, hung, hung_parents, may_hang, met_is_above,
    nothing_hangs_off_itself, parent, parent_of, parents_known, parents_stay_known, rooted,
    set_parent, spawning_keeps_roots, Entities,
};
use crate::value::{said_all, said_sheets, Value};
use crate::world::{
    plain_entity, Body, BodyId, Described, Entity, EntityId, Joint, JointId, World, Worldly,
    MAX_BODIES, MAX_ENTITIES, MAX_JOINTS,
};

verus! {

/// Things with their copies.
pub type Copies = Seq<(Handle, Handle)>;

/// What a handle became when its thing was copied, if it was.
pub open spec fn became_of(copies: Copies, was: Handle) -> Option<Handle>
    decreases copies.len(),
{
    if copies.len() == 0 {
        None
    } else if copies[0].0 == was {
        Some(copies[0].1)
    } else {
        became_of(copies.drop_first(), was)
    }
}

/// What a handle became when its thing was copied, if it was.
pub fn became(copies: &Vec<(Handle, Handle)>, was: Handle) -> (result: Option<Handle>)
    ensures
        result == became_of(copies@, was),
{
    let ghost all = copies@;
    let mut i: usize = 0;
    assert(all.skip(0) =~= all);
    while i < copies.len()
        invariant
            i <= copies@.len(),
            all == copies@,
            became_of(all, was) == became_of(all.skip(i as int), was),
        decreases copies@.len() - i,
    {
        assert(all.skip(i as int)[0] == all[i as int]);
        assert(all.skip(i as int).drop_first() =~= all.skip(i as int + 1));
        if copies[i].0 == was {
            return Some(copies[i].1);
        }
        i = i + 1;
    }
    None
}

/// What a thing became is one of the copies, and nothing before it is of
/// the same thing.
pub proof fn became_is_a_copy(copies: Copies, was: Handle)
    ensures
        match became_of(copies, was) {
            None => forall|i: int| 0 <= i < copies.len() ==> (#[trigger] copies[i]).0 != was,
            Some(copy) => exists|i: int|
                0 <= i < copies.len() && #[trigger] copies[i] == (was, copy) && forall|j: int|
                    0 <= j < i ==> (#[trigger] copies[j]).0 != was,
        },
    decreases copies.len(),
{
    if copies.len() > 0 {
        if copies[0].0 == was {
            assert(copies[0] == (was, copies[0].1));
        } else {
            let less = copies.drop_first();
            became_is_a_copy(less, was);
            match became_of(less, was) {
                None => {
                    assert forall|i: int| 0 <= i < copies.len() implies (#[trigger] copies[i]).0
                        != was by {
                        if i > 0 {
                            assert(copies[i] == less[i - 1]);
                        }
                    }
                },
                Some(copy) => {
                    let i = choose|i: int|
                        0 <= i < less.len() && #[trigger] less[i] == (was, copy) && forall|j: int|
                            0 <= j < i ==> (#[trigger] less[j]).0 != was;
                    assert(copies[i + 1] == (was, copy));
                    assert forall|j: int| 0 <= j < i + 1 implies (#[trigger] copies[j]).0
                        != was by {
                        if j > 0 {
                            assert(copies[j] == less[j - 1]);
                        }
                    }
                },
            }
        }
    }
}

/// The copy of an entity: its name, its look, what it shines, throws and is,
/// what its records hold and what waits in it for one, and its place; hanging
/// off nothing yet. What it paints is its own and is not copied.
pub open spec fn entity_copy(thing: Thing<Entity>) -> Thing<Entity> {
    Thing {
        name: thing.name,
        notes: thing.notes,
        sheets: sheet_put(thing.sheets, PAINT as nat, Seq::empty()),
        facts: Entity {
            mesh: thing.facts.mesh,
            material: thing.facts.material,
            light: thing.facts.light,
            emitter: thing.facts.emitter,
            terrain: thing.facts.terrain,
            group: thing.facts.group,
            ..plain_entity(thing.facts.transform)
        },
    }
}

/// Entities with several of them copied, and which became which. One there
/// is no room for is left out.
pub open spec fn entities_copied(entities: Entities, sources: Seq<EntityId>) -> (Entities, Copies)
    decreases sources.len(),
{
    if sources.len() == 0 {
        (entities, Seq::empty())
    } else {
        let (so_far, made) = entities_copied(entities, sources.drop_last());
        let source = sources.last();
        let copy = next_handle(so_far, MAX_ENTITIES as nat);
        if lives(so_far, source) && copy.some() {
            (
                spawned(so_far, MAX_ENTITIES as nat, entity_copy(thing_at(so_far, source))),
                made.push((source, copy)),
            )
        } else {
            (so_far, made)
        }
    }
}

/// What a copy hangs off: the copy of what the original hangs off when that
/// was copied, and the same thing otherwise.
pub open spec fn hook(copies: Copies, parent: EntityId) -> EntityId {
    match became_of(copies, parent) {
        Some(copy) => copy,
        None => parent,
    }
}

/// Entities with the first so many copies hung the way the originals hang.
pub open spec fn copies_hung(entities: Entities, copies: Copies, count: nat) -> Entities
    decreases count,
{
    if count == 0 {
        entities
    } else {
        let so_far = copies_hung(entities, copies, (count - 1) as nat);
        let (source, copy) = copies[count - 1];
        let onto = hook(copies, parent_of(so_far, source));
        if may_hang(so_far, copy, onto) {
            hung(so_far, copy, onto)
        } else {
            so_far
        }
    }
}

/// Entities with several of them copied and the copies hung.
pub open spec fn entities_duplicated(entities: Entities, sources: Seq<EntityId>) -> (
    Entities,
    Copies,
) {
    let (so_far, made) = entities_copied(entities, sources);
    (copies_hung(so_far, made, made.len()), made)
}

/// Copies entities, then hangs the copies the way the originals hang.
fn copy_entities(entities: &mut Table<Entity>, sources: &Vec<EntityId>) -> (result: Vec<
    (EntityId, EntityId),
>)
    requires
        old(entities).wf(),
        old(entities).room() == MAX_ENTITIES,
    ensures
        final(entities).wf(),
        final(entities).room() == MAX_ENTITIES,
        (final(entities).view(), result@) == entities_duplicated(old(entities).view(), sources@),
{
    let ghost was = entities.view();
    let mut copies: Vec<(EntityId, EntityId)> = Vec::new();
    let mut i: usize = 0;
    assert(sources@.take(0) =~= Seq::empty());
    while i < sources.len()
        invariant
            i <= sources@.len(),
            entities.wf(),
            entities.room() == MAX_ENTITIES,
            (entities.view(), copies@) == entities_copied(was, sources@.take(i as int)),
        decreases sources@.len() - i,
    {
        proof {
            assert(sources@.take(i as int + 1).drop_last() =~= sources@.take(i as int));
            assert(sources@.take(i as int + 1).last() == sources@[i as int]);
        }
        let source: EntityId = sources[i];
        match entities.get(source) {
            None => {},
            Some(facts) => {
                let ghost before = entities.view();
                let name: String = entities.name(source).to_owned();
                let notes: Vec<String> = entities.notes(source);
                let mut sheets: Vec<Vec<Value>> = entities.sheets(source);
                let ghost held = sheets@;
                if PAINT < sheets.len() {
                    let none: Vec<Value> = Vec::new();
                    assert(said_all(none@) =~= Seq::empty());
                    sheets.set(PAINT, none);
                }
                assert(said_sheets(sheets@) =~= sheet_put(
                    said_sheets(held),
                    PAINT as nat,
                    Seq::empty(),
                ));
                let copied: Entity = Entity {
                    mesh: facts.mesh,
                    material: facts.material,
                    light: facts.light,
                    emitter: facts.emitter,
                    terrain: facts.terrain,
                    group: facts.group,
                    ..Entity::plain(facts.transform)
                };
                assert(entity_copy(thing_at(before, source)) == (Thing {
                    name: name@,
                    notes: texts(notes@),
                    sheets: said_sheets(sheets@),
                    facts: copied,
                }));
                let copy: EntityId = entities.spawn_with(name.as_str(), notes, sheets, copied);
                if copy.is_some() {
                    copies.push((source, copy));
                } else {
                    proof {
                        spawned_is_new(
                            before,
                            MAX_ENTITIES as nat,
                            entity_copy(thing_at(before, source)),
                            source,
                        );
                    }
                }
            },
        }
        i = i + 1;
    }
    assert(sources@.take(i as int) =~= sources@);
    let ghost spread = entities.view();
    let mut k: usize = 0;
    while k < copies.len()
        invariant
            k <= copies@.len(),
            entities.wf(),
            entities.room() == MAX_ENTITIES,
            entities.view() == copies_hung(spread, copies@, k as nat),
        decreases copies@.len() - k,
    {
        let (source, copy): (EntityId, EntityId) = copies[k];
        let above: EntityId = parent(entities, source);
        let onto: EntityId = match became(&copies, above) {
            Some(found) => found,
            None => above,
        };
        let ghost before = entities.view();
        set_parent(entities, copy, onto);
        assert forall|j: int| 0 <= j < entities.view().len() implies (
        #[trigger] entities.view()[j]).generation >= 1 && (entities.view()[j].thing is Some
            ==> entities.view()[j].generation < u32::MAX) by {
            assert(before[j].generation >= 1);
        }
        k = k + 1;
    }
    copies
}

/// Whether a body is copied: it drives a copied entity, or is picked.
pub open spec fn body_copied(bodies: Bodies, picks: Seq<Pick>, copies: Copies, id: BodyId) -> bool {
    became_of(copies, thing_at(bodies, id).facts.entity) is Some || picks.contains(Pick::Body(id))
}

/// The copy of a body: driving the copy of what it drives, or nothing.
pub open spec fn body_copy(thing: Thing<Body>, copies: Copies) -> Thing<Body> {
    Thing {
        name: thing.name,
        notes: Seq::empty(),
        sheets: thing.sheets,
        facts: Body {
            entity: match became_of(copies, thing.facts.entity) {
                Some(copy) => copy,
                None => Handle::nothing(),
            },
            ..thing.facts
        },
    }
}

/// Bodies with several of them copied, and which became which.
pub open spec fn bodies_copied(bodies: Bodies, sources: Seq<BodyId>, copies: Copies) -> (
    Bodies,
    Copies,
)
    decreases sources.len(),
{
    if sources.len() == 0 {
        (bodies, Seq::empty())
    } else {
        let (so_far, made) = bodies_copied(bodies, sources.drop_last(), copies);
        let source = sources.last();
        let copy = next_handle(so_far, MAX_BODIES as nat);
        if lives(so_far, source) && copy.some() {
            (
                spawned(so_far, MAX_BODIES as nat, body_copy(thing_at(so_far, source), copies)),
                made.push((source, copy)),
            )
        } else {
            (so_far, made)
        }
    }
}

/// The bodies that are copied, in the order of their slots.
pub open spec fn body_sources(bodies: Bodies, picks: Seq<Pick>, copies: Copies) -> Seq<BodyId> {
    living(bodies).filter(|id: BodyId| body_copied(bodies, picks, copies, id))
}

/// Whether a thing is among several picked.
fn picked(picks: &Vec<Pick>, pick: Pick) -> (result: bool)
    ensures
        result == picks@.contains(pick),
{
    let mut i: usize = 0;
    while i < picks.len()
        invariant
            i <= picks@.len(),
            forall|k: int| 0 <= k < i ==> picks@[k] != pick,
        decreases picks@.len() - i,
    {
        if picks[i] == pick {
            return true;
        }
        i = i + 1;
    }
    false
}

/// The bodies that are copied, in the order of their slots.
fn bodies_to_copy(
    bodies: &Table<Body>,
    picks: &Vec<Pick>,
    copies: &Vec<(EntityId, EntityId)>,
) -> (result: Vec<BodyId>)
    requires
        bodies.wf(),
    ensures
        result@ == body_sources(bodies.view(), picks@, copies@),
{
    let ids: Vec<BodyId> = bodies.ids();
    let ghost all = ids@;
    let ghost wanted = |id: BodyId| body_copied(bodies.view(), picks@, copies@, id);
    let mut found: Vec<BodyId> = Vec::new();
    let mut i: usize = 0;
    proof {
        reveal(Seq::filter);
        living_resolves(bodies.view());
        assert forall|k: int| 0 <= k < all.len() implies lives(bodies.view(), #[trigger] all[k]) by {
            assert(all.contains(all[k]));
        }
        assert(all.take(0).filter(wanted) =~= Seq::empty());
    }
    while i < ids.len()
        invariant
            i <= ids@.len(),
            all == ids@,
            forall|k: int| 0 <= k < all.len() ==> lives(bodies.view(), #[trigger] all[k]),
            wanted == (|id: BodyId| body_copied(bodies.view(), picks@, copies@, id)),
            found@ == all.take(i as int).filter(wanted),
        decreases ids@.len() - i,
    {
        proof {
            reveal(Seq::filter);
            assert(all.take(i as int + 1).drop_last() =~= all.take(i as int));
            assert(all.take(i as int + 1).last() == all[i as int]);
            assert(lives(bodies.view(), all[i as int]));
        }
        let drives: bool = match bodies.get(ids[i]) {
            Some(facts) => became(copies, facts.entity).is_some(),
            None => false,
        };
        if drives || picked(picks, Pick::Body(ids[i])) {
            found.push(ids[i]);
        }
        i = i + 1;
    }
    assert(all.take(i as int) =~= all);
    found
}

/// Copies every body driving a copied entity, driving the copy, and every
/// body picked on its own, driving nothing.
fn copy_bodies(
    bodies: &mut Table<Body>,
    picks: &Vec<Pick>,
    copies: &Vec<(EntityId, EntityId)>,
) -> (result: Vec<(BodyId, BodyId)>)
    requires
        old(bodies).wf(),
        old(bodies).room() == MAX_BODIES,
    ensures
        final(bodies).wf(),
        final(bodies).room() == MAX_BODIES,
        (final(bodies).view(), result@) == bodies_copied(
            old(bodies).view(),
            body_sources(old(bodies).view(), picks@, copies@),
            copies@,
        ),
{
    let ghost was = bodies.view();
    let sources: Vec<BodyId> = bodies_to_copy(bodies, picks, copies);
    let mut made: Vec<(BodyId, BodyId)> = Vec::new();
    let mut i: usize = 0;
    assert(sources@.take(0) =~= Seq::empty());
    while i < sources.len()
        invariant
            i <= sources@.len(),
            bodies.wf(),
            bodies.room() == MAX_BODIES,
            (bodies.view(), made@) == bodies_copied(was, sources@.take(i as int), copies@),
        decreases sources@.len() - i,
    {
        proof {
            assert(sources@.take(i as int + 1).drop_last() =~= sources@.take(i as int));
            assert(sources@.take(i as int + 1).last() == sources@[i as int]);
        }
        let source: BodyId = sources[i];
        match bodies.get(source) {
            None => {},
            Some(facts) => {
                let ghost before = bodies.view();
                let name: String = bodies.name(source).to_owned();
                let entity: EntityId = match became(copies, facts.entity) {
                    Some(copy) => copy,
                    None => Handle::none(),
                };
                let copied: Body = Body { entity, ..facts };
                let notes: Vec<String> = Vec::new();
                assert(texts(notes@) =~= Seq::empty());
                let sheets: Vec<Vec<Value>> = bodies.sheets(source);
                let copy: BodyId = bodies.spawn_with(name.as_str(), notes, sheets, copied);
                if copy.is_some() {
                    made.push((source, copy));
                } else {
                    proof {
                        spawned_is_new(
                            before,
                            MAX_BODIES as nat,
                            body_copy(thing_at(before, source), copies@),
                            source,
                        );
                    }
                }
            },
        }
        i = i + 1;
    }
    assert(sources@.take(i as int) =~= sources@);
    made
}

/// The copy of a joint: holding the copies of what it holds where there are
/// some, the same body at the far end where there is none, and the world
/// where it was the world.
pub open spec fn joint_copy(thing: Thing<Joint>, copies: Copies) -> Thing<Joint> {
    Thing {
        name: thing.name,
        notes: Seq::empty(),
        sheets: thing.sheets,
        facts: Joint {
            first: became_of(copies, thing.facts.first)->0,
            second: if thing.facts.second.some() {
                match became_of(copies, thing.facts.second) {
                    Some(copy) => copy,
                    None => thing.facts.second,
                }
            } else {
                thing.facts.second
            },
            ..thing.facts
        },
    }
}

/// The joints that are copied: those holding a copied body first, in the
/// order of their slots.
pub open spec fn joint_sources(joints: Joints, copies: Copies) -> Seq<JointId> {
    living(joints).filter(
        |id: JointId| became_of(copies, thing_at(joints, id).facts.first) is Some,
    )
}

/// Joints with several of them copied, and which became which.
pub open spec fn joints_copied(joints: Joints, sources: Seq<JointId>, copies: Copies) -> (
    Joints,
    Copies,
)
    decreases sources.len(),
{
    if sources.len() == 0 {
        (joints, Seq::empty())
    } else {
        let (so_far, made) = joints_copied(joints, sources.drop_last(), copies);
        let source = sources.last();
        let copy = next_handle(so_far, MAX_JOINTS as nat);
        if lives(so_far, source) && became_of(copies, thing_at(so_far, source).facts.first) is Some
            && copy.some() {
            (
                spawned(so_far, MAX_JOINTS as nat, joint_copy(thing_at(so_far, source), copies)),
                made.push((source, copy)),
            )
        } else {
            (so_far, made)
        }
    }
}

/// The joints that are copied, in the order of their slots.
fn joints_to_copy(joints: &Table<Joint>, copies: &Vec<(BodyId, BodyId)>) -> (result: Vec<JointId>)
    requires
        joints.wf(),
    ensures
        result@ == joint_sources(joints.view(), copies@),
{
    let ids: Vec<JointId> = joints.ids();
    let ghost all = ids@;
    let ghost wanted = |id: JointId|
        became_of(copies@, thing_at(joints.view(), id).facts.first) is Some;
    let mut found: Vec<JointId> = Vec::new();
    let mut i: usize = 0;
    proof {
        reveal(Seq::filter);
        living_resolves(joints.view());
        assert forall|k: int| 0 <= k < all.len() implies lives(joints.view(), #[trigger] all[k]) by {
            assert(all.contains(all[k]));
        }
        assert(all.take(0).filter(wanted) =~= Seq::empty());
    }
    while i < ids.len()
        invariant
            i <= ids@.len(),
            all == ids@,
            forall|k: int| 0 <= k < all.len() ==> lives(joints.view(), #[trigger] all[k]),
            wanted == (|id: JointId|
                became_of(copies@, thing_at(joints.view(), id).facts.first) is Some),
            found@ == all.take(i as int).filter(wanted),
        decreases ids@.len() - i,
    {
        proof {
            reveal(Seq::filter);
            assert(all.take(i as int + 1).drop_last() =~= all.take(i as int));
            assert(all.take(i as int + 1).last() == all[i as int]);
            assert(lives(joints.view(), all[i as int]));
        }
        let holds: bool = match joints.get(ids[i]) {
            Some(facts) => became(copies, facts.first).is_some(),
            None => false,
        };
        if holds {
            found.push(ids[i]);
        }
        i = i + 1;
    }
    assert(all.take(i as int) =~= all);
    found
}

/// Copies every joint holding a copied body first.
fn copy_joints(joints: &mut Table<Joint>, copies: &Vec<(BodyId, BodyId)>) -> (result: Vec<
    (JointId, JointId),
>)
    requires
        old(joints).wf(),
        old(joints).room() == MAX_JOINTS,
    ensures
        final(joints).wf(),
        final(joints).room() == MAX_JOINTS,
        (final(joints).view(), result@) == joints_copied(
            old(joints).view(),
            joint_sources(old(joints).view(), copies@),
            copies@,
        ),
{
    let ghost was = joints.view();
    let sources: Vec<JointId> = joints_to_copy(joints, copies);
    let mut made: Vec<(JointId, JointId)> = Vec::new();
    let mut i: usize = 0;
    assert(sources@.take(0) =~= Seq::empty());
    while i < sources.len()
        invariant
            i <= sources@.len(),
            joints.wf(),
            joints.room() == MAX_JOINTS,
            (joints.view(), made@) == joints_copied(was, sources@.take(i as int), copies@),
        decreases sources@.len() - i,
    {
        proof {
            assert(sources@.take(i as int + 1).drop_last() =~= sources@.take(i as int));
            assert(sources@.take(i as int + 1).last() == sources@[i as int]);
        }
        let source: JointId = sources[i];
        match joints.get(source) {
            None => {},
            Some(facts) => {
                match became(copies, facts.first) {
                    None => {},
                    Some(first) => {
                        let ghost before = joints.view();
                        let name: String = joints.name(source).to_owned();
                        let second: BodyId = if facts.second.is_some() {
                            match became(copies, facts.second) {
                                Some(copy) => copy,
                                None => facts.second,
                            }
                        } else {
                            facts.second
                        };
                        let copied: Joint = Joint { first, second, ..facts };
                        let notes: Vec<String> = Vec::new();
                        assert(texts(notes@) =~= Seq::empty());
                        let sheets: Vec<Vec<Value>> = joints.sheets(source);
                        let copy: JointId = joints.spawn_with(
                            name.as_str(),
                            notes,
                            sheets,
                            copied,
                        );
                        if copy.is_some() {
                            made.push((source, copy));
                        } else {
                            proof {
                                spawned_is_new(
                                    before,
                                    MAX_JOINTS as nat,
                                    joint_copy(thing_at(before, source), copies@),
                                    source,
                                );
                            }
                        }
                    },
                }
            },
        }
        i = i + 1;
    }
    assert(sources@.take(i as int) =~= sources@);
    made
}

/// Everything a duplication makes: the scene with the copies in it, and what
/// became what in each table.
pub ghost struct Doubled {
    pub scene: Described,
    pub entities: Copies,
    pub bodies: Copies,
    pub joints: Copies,
}

/// The entities a duplication copies.
pub open spec fn entity_sources(entities: Entities, picks: Seq<Pick>) -> Seq<EntityId> {
    living(entities).filter(|id: EntityId| entity_taken(entities, picks, id))
}

/// A scene with what is picked copied.
pub open spec fn doubled(scene: Described, picks: Seq<Pick>) -> Doubled {
    let (entities, entity_copies) = entities_duplicated(
        scene.entities,
        entity_sources(scene.entities, picks),
    );
    let (bodies, body_copies) = bodies_copied(
        scene.bodies,
        body_sources(scene.bodies, picks, entity_copies),
        entity_copies,
    );
    let (joints, joint_copies) = joints_copied(
        scene.joints,
        joint_sources(scene.joints, body_copies),
        body_copies,
    );
    Doubled {
        scene: Described { entities, bodies, joints, ..scene },
        entities: entity_copies,
        bodies: body_copies,
        joints: joint_copies,
    }
}

/// The copy of a picked thing, if it has one.
pub open spec fn copy_of(made: Doubled, pick: Pick) -> Option<Pick> {
    match pick {
        Pick::Entity(id) => match became_of(made.entities, id) {
            Some(copy) => Some(Pick::Entity(copy)),
            None => None,
        },
        Pick::Body(id) => match became_of(made.bodies, id) {
            Some(copy) => Some(Pick::Body(copy)),
            None => None,
        },
        Pick::Joint(id) => match became_of(made.joints, id) {
            Some(copy) => Some(Pick::Joint(copy)),
            None => None,
        },
        _ => None,
    }
}

/// The copies of picked things, in the order the originals were picked.
pub open spec fn copies_of(made: Doubled, picks: Seq<Pick>) -> Seq<Pick>
    decreases picks.len(),
{
    if picks.len() == 0 {
        Seq::empty()
    } else {
        match copy_of(made, picks.last()) {
            None => copies_of(made, picks.drop_last()),
            Some(copy) => copies_of(made, picks.drop_last()).push(copy),
        }
    }
}

/// Makes a copy of what is picked. The copies, in the order the originals
/// were picked, the copy of the primary last: what the selection becomes.
pub fn duplicate(world: &mut World, picks: &Vec<Pick>) -> (result: Vec<Pick>)
    requires
        old(world).wf(),
    ensures
        final(world).wf(),
        final(world).view() == (Worldly {
            scene: doubled(old(world).view().scene, picks@).scene,
            ..old(world).view()
        }),
        result@ == copies_of(doubled(old(world).view().scene, picks@), picks@),
{
    let ghost made = doubled(world.view().scene, picks@);
    let sources: Vec<EntityId> = branches(&world.scene.entities, picks);
    let entity_copies: Vec<(EntityId, EntityId)> = copy_entities(
        &mut world.scene.entities,
        &sources,
    );
    let body_copies: Vec<(BodyId, BodyId)> = copy_bodies(
        &mut world.scene.bodies,
        picks,
        &entity_copies,
    );
    let joint_copies: Vec<(JointId, JointId)> = copy_joints(&mut world.scene.joints, &body_copies);
    let mut found: Vec<Pick> = Vec::new();
    let mut i: usize = 0;
    assert(picks@.take(0) =~= Seq::empty());
    while i < picks.len()
        invariant
            i <= picks@.len(),
            made.entities == entity_copies@,
            made.bodies == body_copies@,
            made.joints == joint_copies@,
            found@ == copies_of(made, picks@.take(i as int)),
        decreases picks@.len() - i,
    {
        proof {
            assert(picks@.take(i as int + 1).drop_last() =~= picks@.take(i as int));
            assert(picks@.take(i as int + 1).last() == picks@[i as int]);
        }
        let copy: Option<Pick> = match picks[i] {
            Pick::Entity(id) => match became(&entity_copies, id) {
                Some(copy) => Some(Pick::Entity(copy)),
                None => None,
            },
            Pick::Body(id) => match became(&body_copies, id) {
                Some(copy) => Some(Pick::Body(copy)),
                None => None,
            },
            Pick::Joint(id) => match became(&joint_copies, id) {
                Some(copy) => Some(Pick::Joint(copy)),
                None => None,
            },
            _ => None,
        };
        match copy {
            Some(copy) => {
                found.push(copy);
            },
            None => {},
        }
        i = i + 1;
    }
    assert(picks@.take(i as int) =~= picks@);
    found
}

/// What copying makes of entities: every original stands as it stood, every
/// copy is a copy of something that stood, no two copies are the same, and
/// nothing else was made.
pub open spec fn copied_well(before: Entities, after: Entities, copies: Copies) -> bool {
    &&& sound(after, MAX_ENTITIES as nat)
    &&& forall|id: EntityId| lives(before, id) ==> #[trigger] lives(after, id)
    &&& forall|id: EntityId|
        lives(before, id) ==> #[trigger] thing_at(after, id) == thing_at(before, id)
    &&& forall|k: int|
        0 <= k < copies.len() ==> {
            &&& lives(before, (#[trigger] copies[k]).0)
            &&& lives(after, copies[k].1)
            &&& !lives(before, copies[k].1)
            &&& thing_at(after, copies[k].1) == entity_copy(thing_at(before, copies[k].0))
        }
    &&& forall|i: int, j: int|
        0 <= i < j < copies.len() ==> (#[trigger] copies[i]).1 != (#[trigger] copies[j]).1
    &&& forall|id: EntityId|
        #[trigger] lives(after, id) && !lives(before, id) ==> exists|k: int|
            0 <= k < copies.len() && (#[trigger] copies[k]).1 == id
}

/// Copying entities copies them well, makes no loop, and changes what no
/// original hangs off.
proof fn entities_copy_well(entities: Entities, sources: Seq<EntityId>)
    requires
        sound(entities, MAX_ENTITIES as nat),
        rooted(entities),
        parents_known(entities),
        forall|i: int| 0 <= i < sources.len() ==> lives(entities, #[trigger] sources[i]),
    ensures
        ({
            let (after, made) = entities_copied(entities, sources);
            &&& copied_well(entities, after, made)
            &&& rooted(after)
            &&& parents_known(after)
            &&& forall|id: EntityId|
                lives(entities, id) ==> #[trigger] parent_of(after, id) == parent_of(entities, id)
            &&& forall|k: int|
                0 <= k < made.len() ==> parent_of(after, (#[trigger] made[k]).1)
                    == Handle::nothing()
        }),
    decreases sources.len(),
{
    if sources.len() > 0 {
        let less = sources.drop_last();
        assert forall|i: int| 0 <= i < less.len() implies lives(entities, #[trigger] less[i]) by {
            assert(less[i] == sources[i]);
        }
        entities_copy_well(entities, less);
        let (so_far, made) = entities_copied(entities, less);
        let (after, all) = entities_copied(entities, sources);
        let source = sources.last();
        assert(lives(entities, sources[sources.len() - 1]));
        let copy = next_handle(so_far, MAX_ENTITIES as nat);
        if copy.some() {
            let thing = entity_copy(thing_at(so_far, source));
            assert(thing_at(so_far, source) == thing_at(entities, source));
            spawning_keeps_roots(so_far, thing);
            assert forall|id: EntityId| lives(entities, id) implies #[trigger] lives(
                after,
                id,
            ) by {
                assert(lives(so_far, id));
                spawned_is_new(so_far, MAX_ENTITIES as nat, thing, id);
            }
            assert forall|id: EntityId| lives(entities, id) implies #[trigger] thing_at(after, id)
                == thing_at(entities, id) by {
                assert(lives(so_far, id));
                assert(thing_at(so_far, id) == thing_at(entities, id));
                spawned_is_new(so_far, MAX_ENTITIES as nat, thing, id);
            }
            spawned_is_new(so_far, MAX_ENTITIES as nat, thing, copy);
            assert(!lives(entities, copy)) by {
                if lives(entities, copy) {
                    assert(lives(so_far, copy));
                }
            }
            assert forall|k: int| 0 <= k < all.len() implies {
                &&& lives(entities, (#[trigger] all[k]).0)
                &&& lives(after, all[k].1)
                &&& !lives(entities, all[k].1)
                &&& thing_at(after, all[k].1) == entity_copy(thing_at(entities, all[k].0))
                &&& parent_of(after, all[k].1) == Handle::nothing()
            } by {
                if k < made.len() {
                    assert(all[k] == made[k]);
                    assert(lives(so_far, made[k].1));
                    spawned_is_new(so_far, MAX_ENTITIES as nat, thing, made[k].1);
                    assert(parent_of(after, made[k].1) == parent_of(so_far, made[k].1));
                } else {
                    assert(all[k] == (source, copy));
                    let up = thing.facts.parent;
                    if up.slot < after.len() {
                        assert(after[up.slot as int].generation >= 1);
                    }
                }
            }
            assert forall|i: int, j: int| 0 <= i < j < all.len() implies (#[trigger] all[i]).1 != (
            #[trigger] all[j]).1 by {
                assert(all[i] == made[i]);
                assert(lives(so_far, made[i].1));
                if j < made.len() {
                    assert(all[j] == made[j]);
                }
            }
            assert forall|id: EntityId| #[trigger]
                lives(after, id) && !lives(entities, id) implies exists|k: int|
                0 <= k < all.len() && (#[trigger] all[k]).1 == id by {
                spawned_is_new(so_far, MAX_ENTITIES as nat, thing, id);
                if id == copy {
                    assert(all[made.len() as int].1 == id);
                } else {
                    assert(lives(so_far, id));
                    let k = choose|k: int| 0 <= k < made.len() && (#[trigger] made[k]).1 == id;
                    assert(all[k].1 == id);
                }
            }
            assert forall|id: EntityId| lives(entities, id) implies #[trigger] parent_of(after, id)
                == parent_of(entities, id) by {
                assert(lives(so_far, id));
                assert(parent_of(after, id) == parent_of(so_far, id));
                assert(parent_of(so_far, id) == parent_of(entities, id));
            }
        }
    } else {
        assert(sound(entities, MAX_ENTITIES as nat));
    }
}

/// What a handle was copied from; itself for an original.
spec fn origin(copies: Copies, id: EntityId) -> EntityId {
    if exists|k: int| 0 <= k < copies.len() && (#[trigger] copies[k]).1 == id {
        copies[choose|k: int| 0 <= k < copies.len() && (#[trigger] copies[k]).1 == id].0
    } else {
        id
    }
}

/// A copy was copied from its original, and no other.
proof fn origin_of_a_copy(copies: Copies, k: int)
    requires
        0 <= k < copies.len(),
        forall|i: int, j: int|
            0 <= i < j < copies.len() ==> (#[trigger] copies[i]).1 != (#[trigger] copies[j]).1,
    ensures
        origin(copies, copies[k].1) == copies[k].0,
{
    let id = copies[k].1;
    let found = choose|k: int| 0 <= k < copies.len() && (#[trigger] copies[k]).1 == id;
    if found < k {
        assert(copies[found].1 != copies[k].1);
    }
    if k < found {
        assert(copies[k].1 != copies[found].1);
    }
}

/// What hanging the first so many copies makes: nothing comes or goes, only
/// copies are written, and those hung hang the way their originals hang.
spec fn hung_well(
    before: Entities,
    spread: Entities,
    after: Entities,
    copies: Copies,
    count: int,
) -> bool {
    &&& sound(after, MAX_ENTITIES as nat)
    &&& rooted(after)
    &&& parents_known(after)
    &&& forall|id: EntityId| #[trigger] lives(after, id) == lives(spread, id)
    &&& forall|id: EntityId|
        lives(before, id) ==> #[trigger] thing_at(after, id) == thing_at(before, id)
    &&& forall|id: EntityId|
        lives(before, id) ==> #[trigger] parent_of(after, id) == parent_of(before, id)
    &&& forall|k: int|
        0 <= k < copies.len() ==> {
            let made = thing_at(after, (#[trigger] copies[k]).1);
            let copy = entity_copy(thing_at(before, copies[k].0));
            &&& made.name == copy.name
            &&& made.notes == copy.notes
            &&& made.sheets == copy.sheets
            &&& made.facts == (Entity { parent: made.facts.parent, ..copy.facts })
        }
    &&& forall|k: int|
        0 <= k < copies.len() ==> parent_of(after, (#[trigger] copies[k]).1) == if k < count {
            hook(copies, parent_of(before, copies[k].0))
        } else {
            Handle::nothing()
        }
}

/// What stands above a thing was copied from what stands above what the
/// thing was copied from.
proof fn chains_mirror(
    before: Entities,
    spread: Entities,
    after: Entities,
    copies: Copies,
    count: int,
    id: EntityId,
    steps: nat,
)
    requires
        sound(before, MAX_ENTITIES as nat),
        copied_well(before, spread, copies),
        hung_well(before, spread, after, copies, count),
        lives(after, id),
        above(after, id, steps).some(),
    ensures
        origin(copies, above(after, id, steps)) == above(before, origin(copies, id), steps),
    decreases steps,
{
    if steps > 0 {
        let up = parent_of(after, id);
        assert(up.some()) by {
            if !up.some() {
                crate::tree::nothing_above_nothing(after, (steps - 1) as nat, MAX_ENTITIES as nat);
            }
        }
        assert(lives(after, up));
        one_step_mirrors(before, spread, after, copies, count, id);
        chains_mirror(before, spread, after, copies, count, up, (steps - 1) as nat);
    }
}

/// What a thing hangs off was copied from what the thing it was copied from
/// hangs off.
proof fn one_step_mirrors(
    before: Entities,
    spread: Entities,
    after: Entities,
    copies: Copies,
    count: int,
    id: EntityId,
)
    requires
        sound(before, MAX_ENTITIES as nat),
        copied_well(before, spread, copies),
        hung_well(before, spread, after, copies, count),
        lives(after, id),
        parent_of(after, id).some(),
    ensures
        origin(copies, parent_of(after, id)) == parent_of(before, origin(copies, id)),
{
    let up = parent_of(after, id);
    if lives(before, id) {
        original_is_its_own(before, spread, copies, id);
        assert(up == parent_of(before, id));
        original_is_its_own(before, spread, copies, up);
    } else {
        assert(lives(spread, id));
        let k = choose|k: int| 0 <= k < copies.len() && (#[trigger] copies[k]).1 == id;
        origin_of_a_copy(copies, k);
        let top = parent_of(before, copies[k].0);
        assert(up == hook(copies, top));
        became_is_a_copy(copies, top);
        match became_of(copies, top) {
            None => {
                original_is_its_own(before, spread, copies, top);
            },
            Some(found) => {
                let j = choose|j: int| 0 <= j < copies.len() && #[trigger] copies[j] == (top, found);
                origin_of_a_copy(copies, j);
            },
        }
    }
}

/// An original was copied from nothing but itself.
proof fn original_is_its_own(before: Entities, spread: Entities, copies: Copies, id: EntityId)
    requires
        copied_well(before, spread, copies),
        lives(before, id),
    ensures
        origin(copies, id) == id,
{
    if exists|k: int| 0 <= k < copies.len() && (#[trigger] copies[k]).1 == id {
        let k = choose|k: int| 0 <= k < copies.len() && (#[trigger] copies[k]).1 == id;
        assert(!lives(before, copies[k].1));
    }
}

/// Copies may hang the way their originals hang.
proof fn copies_may_hang(
    before: Entities,
    spread: Entities,
    after: Entities,
    copies: Copies,
    count: int,
)
    requires
        sound(before, MAX_ENTITIES as nat),
        rooted(before),
        copied_well(before, spread, copies),
        hung_well(before, spread, after, copies, count),
        0 <= count < copies.len(),
    ensures
        may_hang(
            after,
            copies[count].1,
            hook(copies, parent_of(before, copies[count].0)),
        ),
        hook(copies, parent_of(before, copies[count].0)).some() == parent_of(
            before,
            copies[count].0,
        ).some(),
        !parent_of(before, copies[count].0).some() ==> hook(
            copies,
            parent_of(before, copies[count].0),
        ) == Handle::nothing(),
{
    let (source, copy) = copies[count];
    let top = parent_of(before, source);
    let onto = hook(copies, top);
    assert(lives(before, source));
    assert(lives(spread, copy));
    became_is_a_copy(copies, top);
    nothing_hangs_off_itself(before, source);
    assert(before[source.slot as int].generation >= 1);
    origin_of_a_copy(copies, count);
    if !top.some() {
        assert(top == Handle::nothing()) by {
            let stored = thing_at(before, source).facts.parent;
            if lives(before, stored) {
                assert(before[stored.slot as int].generation >= 1);
            }
        }
        assert(became_of(copies, top) is None) by {
            if let Some(found) = became_of(copies, top) {
                let j = choose|j: int| 0 <= j < copies.len() && #[trigger] copies[j] == (top, found);
                assert(lives(before, copies[j].0));
                assert(before[top.slot as int].generation >= 1);
            }
        }
    } else {
        assert(lives(before, top));
        assert(above(before, top, 0) == top);
        assert(above(before, source, 1) == top);
        match became_of(copies, top) {
            None => {
                assert(lives(spread, top));
                original_is_its_own(before, spread, copies, top);
            },
            Some(found) => {
                let j = choose|j: int| 0 <= j < copies.len() && #[trigger] copies[j] == (top, found);
                assert(lives(spread, copies[j].1));
                origin_of_a_copy(copies, j);
            },
        }
        assert(lives(after, onto));
        assert(after[onto.slot as int].generation >= 1);
        assert(origin(copies, onto) == top);
        if onto == copy {
            assert(top == source);
            assert(below(before, source, source));
        }
        if hangs(after, onto, copy) {
            let up = parent_of(after, onto);
            met_is_above(after, up, copy, MAX_ENTITIES as nat);
            let steps = choose|steps: nat|
                #[trigger] above(after, up, steps) == copy && steps < MAX_ENTITIES;
            assert(above(after, onto, steps + 1) == copy);
            chains_mirror(before, spread, after, copies, count, onto, steps + 1);
            assert(above(before, top, steps + 1) == source);
            assert(above(before, source, steps + 2) == source);
            assert(below(before, source, source));
        }
    }
}

/// Hanging copies one after the other hangs them well.
proof fn copies_hang_well(before: Entities, spread: Entities, copies: Copies, count: nat)
    requires
        sound(before, MAX_ENTITIES as nat),
        rooted(before),
        copied_well(before, spread, copies),
        rooted(spread),
        parents_known(spread),
        forall|id: EntityId|
            lives(before, id) ==> #[trigger] parent_of(spread, id) == parent_of(before, id),
        forall|k: int|
            0 <= k < copies.len() ==> parent_of(spread, (#[trigger] copies[k]).1)
                == Handle::nothing(),
        count <= copies.len(),
    ensures
        hung_well(before, spread, copies_hung(spread, copies, count), copies, count as int),
    decreases count,
{
    if count > 0 {
        let less = (count - 1) as nat;
        copies_hang_well(before, spread, copies, less);
        let so_far = copies_hung(spread, copies, less);
        let (source, copy) = copies[less as int];
        copies_may_hang(before, spread, so_far, copies, less as int);
        assert(lives(before, source));
        let onto = hook(copies, parent_of(before, source));
        assert(parent_of(so_far, source) == parent_of(before, source));
        let after = hung(so_far, copy, onto);
        hanging_keeps_roots(so_far, copy, onto);
        parents_stay_known(so_far, copy, onto);
        assert(lives(spread, copy));
        assert forall|id: EntityId| #[trigger] lives(after, id) == lives(spread, id) by {
            hung_parents(so_far, copy, onto, id);
            assert(lives(so_far, id) == lives(spread, id));
        }
        assert forall|id: EntityId| lives(before, id) implies #[trigger] thing_at(after, id)
            == thing_at(before, id) by {
            assert(!lives(before, copies[less as int].1));
            assert(lives(spread, id));
            assert(lives(so_far, id));
            assert(lives(so_far, copy));
            assert(id.slot != copy.slot);
            assert(thing_at(so_far, id) == thing_at(before, id));
        }
        assert forall|id: EntityId| lives(before, id) implies #[trigger] parent_of(after, id)
            == parent_of(before, id) by {
            assert(!lives(before, copies[less as int].1));
            hung_parents(so_far, copy, onto, id);
            assert(parent_of(so_far, id) == parent_of(before, id));
        }
        assert forall|k: int| 0 <= k < copies.len() implies {
            let made = thing_at(after, (#[trigger] copies[k]).1);
            let want = entity_copy(thing_at(before, copies[k].0));
            &&& made.name == want.name
            &&& made.notes == want.notes
            &&& made.sheets == want.sheets
            &&& made.facts == (Entity { parent: made.facts.parent, ..want.facts })
        } by {
            let other = copies[k].1;
            assert(lives(spread, other));
            assert(lives(so_far, other));
            if k != less {
                assert(other != copy) by {
                    if k < less {
                        assert(copies[k].1 != copies[less as int].1);
                    } else {
                        assert(copies[less as int].1 != copies[k].1);
                    }
                }
                assert(other.slot != copy.slot);
                assert(thing_at(after, other) == thing_at(so_far, other));
            }
        }
        assert forall|k: int| 0 <= k < copies.len() implies parent_of(
            after,
            (#[trigger] copies[k]).1,
        ) == if k < count {
            hook(copies, parent_of(before, copies[k].0))
        } else {
            Handle::nothing()
        } by {
            let other = copies[k].1;
            hung_parents(so_far, copy, onto, other);
            if k < less {
                assert(copies[k].1 != copies[less as int].1);
            } else if k > less {
                assert(copies[less as int].1 != copies[k].1);
            }
        }
    }
}

/// A duplicate stands beside the original and in its place: every original
/// stands as it stood and hangs where it hung; every copy has the name, the
/// look, the place and the records of its original; and a copy hangs off the copy of what
/// its original hangs off when that was copied too, and off the same thing
/// otherwise. No loop is made.
pub proof fn a_duplicate_stands_beside(entities: Entities, picks: Seq<Pick>)
    requires
        sound(entities, MAX_ENTITIES as nat),
        rooted(entities),
        parents_known(entities),
    ensures
        ({
            let (after, made) = entities_duplicated(entities, entity_sources(entities, picks));
            &&& sound(after, MAX_ENTITIES as nat)
            &&& rooted(after)
            &&& parents_known(after)
            &&& forall|id: EntityId| lives(entities, id) ==> #[trigger] lives(after, id)
            &&& forall|id: EntityId|
                lives(entities, id) ==> #[trigger] thing_at(after, id) == thing_at(entities, id)
            &&& forall|id: EntityId|
                lives(entities, id) ==> #[trigger] parent_of(after, id) == parent_of(entities, id)
            &&& forall|k: int|
                0 <= k < made.len() ==> {
                    let (source, copy) = #[trigger] made[k];
                    let was = thing_at(entities, source);
                    let now = thing_at(after, copy);
                    &&& entity_taken(entities, picks, source)
                    &&& lives(after, copy)
                    &&& !lives(entities, copy)
                    &&& now.name == was.name
                    &&& now.notes == was.notes
                    &&& now.sheets == sheet_put(was.sheets, PAINT as nat, Seq::empty())
                    &&& now.facts.transform == was.facts.transform
                    &&& now.facts.mesh == was.facts.mesh
                    &&& now.facts.material == was.facts.material
                    &&& now.facts.light == was.facts.light
                    &&& now.facts.emitter == was.facts.emitter
                    &&& now.facts.terrain == was.facts.terrain
                    &&& parent_of(after, copy) == hook(made, parent_of(entities, source))
                }
        }),
{
    let sources = entity_sources(entities, picks);
    let taken = |id: EntityId| entity_taken(entities, picks, id);
    living_resolves(entities);
    crate::edit::filter_contains(living(entities), taken);
    assert forall|i: int| 0 <= i < sources.len() implies lives(entities, #[trigger] sources[i]) by {
        assert(sources.contains(sources[i]));
        assert(living(entities).contains(sources[i]));
    }
    entities_copy_well(entities, sources);
    let (spread, made) = entities_copied(entities, sources);
    copies_hang_well(entities, spread, made, made.len());
    let after = copies_hung(spread, made, made.len());
    assert forall|id: EntityId| lives(entities, id) implies #[trigger] lives(after, id) by {
        assert(lives(spread, id));
    }
    copies_come_from_sources(entities, sources);
    assert forall|k: int| 0 <= k < made.len() implies {
        let (source, copy) = #[trigger] made[k];
        let was = thing_at(entities, source);
        let now = thing_at(after, copy);
        &&& entity_taken(entities, picks, source)
        &&& lives(after, copy)
        &&& !lives(entities, copy)
        &&& now.name == was.name
        &&& now.notes == was.notes
        &&& now.sheets == sheet_put(was.sheets, PAINT as nat, Seq::empty())
        &&& now.facts.transform == was.facts.transform
        &&& now.facts.mesh == was.facts.mesh
        &&& now.facts.material == was.facts.material
        &&& now.facts.light == was.facts.light
        &&& now.facts.emitter == was.facts.emitter
        &&& now.facts.terrain == was.facts.terrain
        &&& parent_of(after, copy) == hook(made, parent_of(entities, source))
    } by {
        assert(sources.contains(made[k].0));
        assert(lives(spread, made[k].1));
        assert(lives(after, made[k].1));
        let now = thing_at(after, made[k].1);
        let want = entity_copy(thing_at(entities, made[k].0));
        assert(now.facts == (Entity { parent: now.facts.parent, ..want.facts }));
    }
}

/// Every copy is of something that was to be copied.
proof fn copies_come_from_sources(entities: Entities, sources: Seq<EntityId>)
    ensures
        forall|k: int|
            0 <= k < entities_copied(entities, sources).1.len() ==> sources.contains(
                (#[trigger] entities_copied(entities, sources).1[k]).0,
            ),
    decreases sources.len(),
{
    if sources.len() > 0 {
        let less = sources.drop_last();
        copies_come_from_sources(entities, less);
        let made = entities_copied(entities, less).1;
        let all = entities_copied(entities, sources).1;
        assert forall|k: int| 0 <= k < all.len() implies sources.contains((#[trigger] all[k]).0) by {
            if k < made.len() {
                assert(all[k] == made[k]);
                let i = choose|i: int| 0 <= i < less.len() && less[i] == made[k].0;
                assert(sources[i] == made[k].0);
            } else {
                assert(sources[sources.len() - 1] == all[k].0);
            }
        }
    }
}

/// What several things became.
pub open spec fn second_of(copies: Copies) -> Seq<Handle> {
    Seq::new(copies.len(), |k: int| copies[k].1)
}

/// Whether a handle is what another became, or neither is: the copy where it was
/// copied, and a stand-in where it was not.
pub open spec fn stands_for(copies: Copies, was: Handle, now: Handle, otherwise: Handle) -> bool {
    ||| exists|k: int| 0 <= k < copies.len() && #[trigger] copies[k] == (was, now)
    ||| now == otherwise && forall|k: int|
        0 <= k < copies.len() ==> (#[trigger] copies[k]).0 != was
}

/// What a thing became stands for it.
pub proof fn became_stands_for(copies: Copies, was: Handle, otherwise: Handle)
    ensures
        stands_for(
            copies,
            was,
            match became_of(copies, was) {
                Some(copy) => copy,
                None => otherwise,
            },
            otherwise,
        ),
{
    became_is_a_copy(copies, was);
}

/// Copies of bodies, one after the other.
proof fn bodies_copy_well(bodies: Bodies, sources: Seq<BodyId>, copies: Copies)
    requires
        sound(bodies, MAX_BODIES as nat),
        forall|i: int| 0 <= i < sources.len() ==> lives(bodies, #[trigger] sources[i]),
    ensures
        ({
            let (after, made) = bodies_copied(bodies, sources, copies);
            &&& sound(after, MAX_BODIES as nat)
            &&& grown(bodies, after, second_of(made))
            &&& forall|k: int|
                0 <= k < made.len() ==> {
                    &&& sources.contains((#[trigger] made[k]).0)
                    &&& thing_at(after, made[k].1) == body_copy(
                        thing_at(bodies, made[k].0),
                        copies,
                    )
                }
            &&& forall|i: int|
                0 <= i < sources.len() ==> room_left(after, MAX_BODIES as nat) == 0
                    || was_copied(made, #[trigger] sources[i])
        }),
    decreases sources.len(),
{
    let limit = MAX_BODIES as nat;
    let (after, made) = bodies_copied(bodies, sources, copies);
    if sources.len() == 0 {
        assert(second_of(made) =~= Seq::empty());
    } else {
        let less = sources.drop_last();
        assert forall|i: int| 0 <= i < less.len() implies lives(bodies, #[trigger] less[i]) by {
            assert(less[i] == sources[i]);
        }
        bodies_copy_well(bodies, less, copies);
        let (so_far, before) = bodies_copied(bodies, less, copies);
        let source = sources.last();
        assert(sources[sources.len() - 1] == source);
        let thing = body_copy(thing_at(so_far, source), copies);
        let copy = next_handle(so_far, limit);
        spawning_takes_room(so_far, limit, thing);
        if copy.some() {
            spawning_grows(bodies, so_far, limit, second_of(before), thing);
            assert(second_of(made) =~= second_of(before).push(copy));
            assert(thing_at(so_far, source) == thing_at(bodies, source));
        }
        assert forall|k: int| 0 <= k < made.len() implies sources.contains((#[trigger] made[k]).0)
            && thing_at(after, made[k].1) == body_copy(thing_at(bodies, made[k].0), copies) by {
            if k < before.len() {
                assert(made[k] == before[k]);
                assert(second_of(before)[k] == made[k].1);
                let i = choose|i: int| 0 <= i < less.len() && less[i] == before[k].0;
                assert(sources[i] == before[k].0);
                if copy.some() {
                    assert(thing_at(after, second_of(before)[k]) == thing_at(
                        so_far,
                        second_of(before)[k],
                    ));
                }
            }
        }
        assert forall|i: int| 0 <= i < sources.len() implies room_left(after, limit) == 0
            || was_copied(made, #[trigger] sources[i]) by {
            if i < less.len() {
                assert(less[i] == sources[i]);
                if was_copied(before, less[i]) {
                    let k = choose|k: int|
                        0 <= k < before.len() && (#[trigger] before[k]).0 == less[i];
                    assert(made[k] == before[k]);
                }
            } else if copy.some() {
                assert(made[before.len() as int] == (source, copy));
            }
        }
    }
}

/// Whether a thing was copied.
pub open spec fn was_copied(copies: Copies, id: Handle) -> bool {
    exists|k: int| 0 <= k < copies.len() && (#[trigger] copies[k]).0 == id
}

/// Copies of joints, one after the other.
proof fn joints_copy_well(joints: Joints, sources: Seq<JointId>, copies: Copies)
    requires
        sound(joints, MAX_JOINTS as nat),
        forall|i: int| 0 <= i < sources.len() ==> lives(joints, #[trigger] sources[i]),
        forall|i: int|
            0 <= i < sources.len() ==> became_of(
                copies,
                thing_at(joints, #[trigger] sources[i]).facts.first,
            ) is Some,
    ensures
        ({
            let (after, made) = joints_copied(joints, sources, copies);
            &&& sound(after, MAX_JOINTS as nat)
            &&& grown(joints, after, second_of(made))
            &&& forall|k: int|
                0 <= k < made.len() ==> {
                    &&& sources.contains((#[trigger] made[k]).0)
                    &&& thing_at(after, made[k].1) == joint_copy(
                        thing_at(joints, made[k].0),
                        copies,
                    )
                }
            &&& forall|i: int|
                0 <= i < sources.len() ==> room_left(after, MAX_JOINTS as nat) == 0
                    || was_copied(made, #[trigger] sources[i])
        }),
    decreases sources.len(),
{
    let limit = MAX_JOINTS as nat;
    let (after, made) = joints_copied(joints, sources, copies);
    if sources.len() == 0 {
        assert(second_of(made) =~= Seq::empty());
    } else {
        let less = sources.drop_last();
        assert forall|i: int| 0 <= i < less.len() implies lives(joints, #[trigger] less[i])
            && became_of(copies, thing_at(joints, less[i]).facts.first) is Some by {
            assert(less[i] == sources[i]);
        }
        joints_copy_well(joints, less, copies);
        let (so_far, before) = joints_copied(joints, less, copies);
        let source = sources.last();
        assert(sources[sources.len() - 1] == source);
        let thing = joint_copy(thing_at(so_far, source), copies);
        let copy = next_handle(so_far, limit);
        assert(lives(so_far, source));
        assert(thing_at(so_far, source) == thing_at(joints, source));
        spawning_takes_room(so_far, limit, thing);
        if copy.some() {
            spawning_grows(joints, so_far, limit, second_of(before), thing);
            assert(second_of(made) =~= second_of(before).push(copy));
        }
        assert forall|k: int| 0 <= k < made.len() implies sources.contains((#[trigger] made[k]).0)
            && thing_at(after, made[k].1) == joint_copy(thing_at(joints, made[k].0), copies) by {
            if k < before.len() {
                assert(made[k] == before[k]);
                assert(second_of(before)[k] == made[k].1);
                let i = choose|i: int| 0 <= i < less.len() && less[i] == before[k].0;
                assert(sources[i] == before[k].0);
                if copy.some() {
                    assert(thing_at(after, second_of(before)[k]) == thing_at(
                        so_far,
                        second_of(before)[k],
                    ));
                }
            }
        }
        assert forall|i: int| 0 <= i < sources.len() implies room_left(after, limit) == 0
            || was_copied(made, #[trigger] sources[i]) by {
            if i < less.len() {
                assert(less[i] == sources[i]);
                if was_copied(before, less[i]) {
                    let k = choose|k: int|
                        0 <= k < before.len() && (#[trigger] before[k]).0 == less[i];
                    assert(made[k] == before[k]);
                }
            } else if copy.some() {
                assert(made[before.len() as int] == (source, copy));
            }
        }
    }
}

/// A copied body is the body it was copied from in everything but what it
/// drives: the copy of what that one drives, or nothing. Every body driving a
/// copied entity is copied, and every body picked, as far as there is room, and
/// no other; and every body that stood goes on standing as it stood.
pub proof fn a_copied_body_is_the_body(scene: Described, picks: Seq<Pick>)
    requires
        sound(scene.bodies, MAX_BODIES as nat),
    ensures
        ({
            let made = doubled(scene, picks);
            let after = made.scene.bodies;
            &&& grown(scene.bodies, after, second_of(made.bodies))
            &&& forall|k: int|
                0 <= k < made.bodies.len() ==> {
                    let (source, copy) = #[trigger] made.bodies[k];
                    let was = thing_at(scene.bodies, source);
                    let now = thing_at(after, copy);
                    &&& lives(scene.bodies, source)
                    &&& was_copied(made.entities, was.facts.entity) || picks.contains(
                        Pick::Body(source),
                    )
                    &&& now.name == was.name
                    &&& now.sheets == was.sheets
                    &&& now.facts.transform == was.facts.transform
                    &&& now.facts.kind == was.facts.kind
                    &&& now.facts.shape == was.facts.shape
                    &&& now.facts.collider == was.facts.collider
                    &&& now.facts.sensor == was.facts.sensor
                    &&& now.facts.wet == was.facts.wet
                    &&& stands_for(
                        made.entities,
                        was.facts.entity,
                        now.facts.entity,
                        Handle::nothing(),
                    )
                }
            &&& forall|id: BodyId|
                lives(scene.bodies, id) && (was_copied(
                    made.entities,
                    thing_at(scene.bodies, id).facts.entity,
                ) || picks.contains(Pick::Body(id))) ==> room_left(after, MAX_BODIES as nat) == 0
                    || #[trigger] was_copied(made.bodies, id)
        }),
{
    let made = doubled(scene, picks);
    let bodies = scene.bodies;
    let copies = made.entities;
    let sources = body_sources(bodies, picks, copies);
    let wanted = |id: BodyId| body_copied(bodies, picks, copies, id);
    living_resolves(bodies);
    crate::edit::filter_contains(living(bodies), wanted);
    assert forall|i: int| 0 <= i < sources.len() implies lives(bodies, #[trigger] sources[i]) by {
        assert(sources.contains(sources[i]));
    }
    bodies_copy_well(bodies, sources, copies);
    assert forall|id: BodyId| was_copied(copies, thing_at(bodies, id).facts.entity) == (became_of(
        copies,
        #[trigger] thing_at(bodies, id).facts.entity,
    ) is Some) by {
        became_is_a_copy(copies, thing_at(bodies, id).facts.entity);
    }
    assert forall|k: int| 0 <= k < made.bodies.len() implies {
        let (source, copy) = #[trigger] made.bodies[k];
        let was = thing_at(bodies, source);
        let now = thing_at(made.scene.bodies, copy);
        &&& lives(bodies, source)
        &&& was_copied(copies, was.facts.entity) || picks.contains(Pick::Body(source))
        &&& stands_for(copies, was.facts.entity, now.facts.entity, Handle::nothing())
    } by {
        let source = made.bodies[k].0;
        assert(sources.contains(source));
        assert(wanted(source));
        became_stands_for(copies, thing_at(bodies, source).facts.entity, Handle::nothing());
    }
    assert forall|id: BodyId|
        lives(bodies, id) && (was_copied(copies, thing_at(bodies, id).facts.entity)
            || picks.contains(Pick::Body(id))) implies room_left(
        made.scene.bodies,
        MAX_BODIES as nat,
    ) == 0 || #[trigger] was_copied(made.bodies, id) by {
        assert(wanted(id));
        assert(sources.contains(id));
        let i = choose|i: int| 0 <= i < sources.len() && sources[i] == id;
        assert(sources[i] == id);
    }
}

/// A copied joint is the joint it was copied from in everything but what it
/// holds: first the copy of what that one holds first, and at the far end the
/// copy of what it holds there, the same body where that was not copied, and
/// the world where it was the world. Every joint holding a copied body first is
/// copied, as far as there is room, and no other; and every joint that stood
/// goes on standing as it stood.
pub proof fn a_copied_joint_is_the_joint(scene: Described, picks: Seq<Pick>)
    requires
        sound(scene.joints, MAX_JOINTS as nat),
    ensures
        ({
            let made = doubled(scene, picks);
            let after = made.scene.joints;
            &&& grown(scene.joints, after, second_of(made.joints))
            &&& forall|k: int|
                0 <= k < made.joints.len() ==> {
                    let (source, copy) = #[trigger] made.joints[k];
                    let was = thing_at(scene.joints, source);
                    let now = thing_at(after, copy);
                    &&& lives(scene.joints, source)
                    &&& now.name == was.name
                    &&& now.sheets == was.sheets
                    &&& now.facts.kind == was.facts.kind
                    &&& made.bodies.contains((was.facts.first, now.facts.first))
                    &&& was.facts.second.some() ==> stands_for(
                        made.bodies,
                        was.facts.second,
                        now.facts.second,
                        was.facts.second,
                    )
                    &&& !was.facts.second.some() ==> now.facts.second == was.facts.second
                }
            &&& forall|id: JointId|
                lives(scene.joints, id) && was_copied(
                    made.bodies,
                    thing_at(scene.joints, id).facts.first,
                ) ==> room_left(after, MAX_JOINTS as nat) == 0 || #[trigger] was_copied(
                    made.joints,
                    id,
                )
        }),
{
    let made = doubled(scene, picks);
    let joints = scene.joints;
    let copies = made.bodies;
    let sources = joint_sources(joints, copies);
    let wanted = |id: JointId| became_of(copies, thing_at(joints, id).facts.first) is Some;
    living_resolves(joints);
    crate::edit::filter_contains(living(joints), wanted);
    assert forall|i: int| 0 <= i < sources.len() implies lives(joints, #[trigger] sources[i])
        && became_of(copies, thing_at(joints, sources[i]).facts.first) is Some by {
        assert(sources.contains(sources[i]));
        assert(wanted(sources[i]));
    }
    joints_copy_well(joints, sources, copies);
    assert forall|k: int| 0 <= k < made.joints.len() implies {
        let (source, copy) = #[trigger] made.joints[k];
        let was = thing_at(joints, source);
        let now = thing_at(made.scene.joints, copy);
        &&& lives(joints, source)
        &&& copies.contains((was.facts.first, now.facts.first))
        &&& was.facts.second.some() ==> stands_for(
            copies,
            was.facts.second,
            now.facts.second,
            was.facts.second,
        )
    } by {
        let source = made.joints[k].0;
        assert(sources.contains(source));
        assert(wanted(source));
        let was = thing_at(joints, source);
        became_is_a_copy(copies, was.facts.first);
        became_stands_for(copies, was.facts.second, was.facts.second);
    }
    assert forall|id: JointId|
        lives(joints, id) && was_copied(copies, thing_at(joints, id).facts.first) implies room_left(
        made.scene.joints,
        MAX_JOINTS as nat,
    ) == 0 || #[trigger] was_copied(made.joints, id) by {
        became_is_a_copy(copies, thing_at(joints, id).facts.first);
        assert(wanted(id));
        assert(sources.contains(id));
        let i = choose|i: int| 0 <= i < sources.len() && sources[i] == id;
        assert(sources[i] == id);
    }
}

/// A copied entity looks like what it was copied from.
pub proof fn copies_keep_their_looks(entities: Entities, picks: Seq<Pick>)
    requires
        sound(entities, MAX_ENTITIES as nat),
        rooted(entities),
        parents_known(entities),
    ensures
        ({
            let (after, made) = entities_duplicated(entities, entity_sources(entities, picks));
            forall|k: int|
                0 <= k < made.len() ==> {
                    let was = thing_at(entities, (#[trigger] made[k]).0).facts;
                    let now = thing_at(after, made[k].1).facts;
                    &&& now.mesh == was.mesh
                    &&& now.material == was.material
                    &&& now.light == was.light
                    &&& now.emitter == was.emitter
                    &&& now.terrain == was.terrain
                    &&& now.group == was.group
                    &&& now.transform == was.transform
                    &&& !now.hidden
                    &&& now.takes_decals
                    &&& now.decal == 0
                }
        }),
{
    let sources = entity_sources(entities, picks);
    let taken = |id: EntityId| entity_taken(entities, picks, id);
    living_resolves(entities);
    crate::edit::filter_contains(living(entities), taken);
    assert forall|i: int| 0 <= i < sources.len() implies lives(entities, #[trigger] sources[i]) by {
        assert(sources.contains(sources[i]));
        assert(living(entities).contains(sources[i]));
    }
    entities_copy_well(entities, sources);
    let (spread, made) = entities_copied(entities, sources);
    copies_hang_well(entities, spread, made, made.len());
    let after = copies_hung(spread, made, made.len());
    assert forall|k: int| 0 <= k < made.len() implies {
        let was = thing_at(entities, (#[trigger] made[k]).0).facts;
        let now = thing_at(after, made[k].1).facts;
        &&& now.mesh == was.mesh
        &&& now.material == was.material
        &&& now.light == was.light
        &&& now.emitter == was.emitter
        &&& now.terrain == was.terrain
        &&& now.group == was.group
        &&& now.transform == was.transform
        &&& !now.hidden
        &&& now.takes_decals
        &&& now.decal == 0
    } by {
        let now = thing_at(after, made[k].1);
        let want = entity_copy(thing_at(entities, made[k].0));
        assert(now.facts == (Entity { parent: now.facts.parent, ..want.facts }));
    }
}

/// Every entity picked and everything hanging off one is copied, as far as there
/// is room, and no other.
pub proof fn everything_taken_is_copied(entities: Entities, picks: Seq<Pick>)
    requires
        sound(entities, MAX_ENTITIES as nat),
        rooted(entities),
        parents_known(entities),
    ensures
        ({
            let (after, made) = entities_duplicated(entities, entity_sources(entities, picks));
            &&& forall|id: EntityId|
                entity_taken(entities, picks, id) ==> #[trigger] was_copied(made, id) || room_left(
                    entities_copied(entities, entity_sources(entities, picks)).0,
                    MAX_ENTITIES as nat,
                ) == 0
            &&& forall|id: EntityId| #[trigger]
                was_copied(made, id) ==> entity_taken(entities, picks, id)
        }),
{
    let sources = entity_sources(entities, picks);
    let taken = |id: EntityId| entity_taken(entities, picks, id);
    living_resolves(entities);
    crate::edit::filter_contains(living(entities), taken);
    assert forall|i: int| 0 <= i < sources.len() implies lives(entities, #[trigger] sources[i]) by {
        assert(sources.contains(sources[i]));
        assert(living(entities).contains(sources[i]));
    }
    sources_are_copied(entities, sources);
    copies_come_from_sources(entities, sources);
    let made = entities_copied(entities, sources).1;
    assert forall|id: EntityId| entity_taken(entities, picks, id) implies #[trigger] was_copied(
        made,
        id,
    ) || room_left(entities_copied(entities, sources).0, MAX_ENTITIES as nat) == 0 by {
        assert(taken(id));
        assert(sources.contains(id));
        let i = choose|i: int| 0 <= i < sources.len() && sources[i] == id;
        assert(sources[i] == id);
    }
    assert forall|id: EntityId| #[trigger] was_copied(made, id) implies entity_taken(
        entities,
        picks,
        id,
    ) by {
        let k = choose|k: int| 0 <= k < made.len() && (#[trigger] made[k]).0 == id;
        assert(sources.contains(made[k].0));
        assert(taken(id));
    }
}

/// Every entity that was to be copied is, as far as there is room.
proof fn sources_are_copied(entities: Entities, sources: Seq<EntityId>)
    requires
        sound(entities, MAX_ENTITIES as nat),
        forall|i: int| 0 <= i < sources.len() ==> lives(entities, #[trigger] sources[i]),
    ensures
        ({
            let (after, made) = entities_copied(entities, sources);
            &&& sound(after, MAX_ENTITIES as nat)
            &&& grown(entities, after, second_of(made))
            &&& forall|i: int|
                0 <= i < sources.len() ==> room_left(after, MAX_ENTITIES as nat) == 0
                    || was_copied(made, #[trigger] sources[i])
        }),
    decreases sources.len(),
{
    let limit = MAX_ENTITIES as nat;
    let (after, made) = entities_copied(entities, sources);
    if sources.len() == 0 {
        assert(second_of(made) =~= Seq::empty());
    } else {
        let less = sources.drop_last();
        assert forall|i: int| 0 <= i < less.len() implies lives(entities, #[trigger] less[i]) by {
            assert(less[i] == sources[i]);
        }
        sources_are_copied(entities, less);
        let (so_far, before) = entities_copied(entities, less);
        let source = sources.last();
        assert(sources[sources.len() - 1] == source);
        let thing = entity_copy(thing_at(so_far, source));
        let copy = next_handle(so_far, limit);
        assert(lives(so_far, source));
        spawning_takes_room(so_far, limit, thing);
        if copy.some() {
            spawning_grows(entities, so_far, limit, second_of(before), thing);
            assert(second_of(made) =~= second_of(before).push(copy));
        }
        assert forall|i: int| 0 <= i < sources.len() implies room_left(after, limit) == 0
            || was_copied(made, #[trigger] sources[i]) by {
            if i < less.len() {
                assert(less[i] == sources[i]);
                if was_copied(before, less[i]) {
                    let k = choose|k: int|
                        0 <= k < before.len() && (#[trigger] before[k]).0 == less[i];
                    assert(made[k] == before[k]);
                }
            } else if copy.some() {
                assert(made[before.len() as int] == (source, copy));
            }
        }
    }
}

} // verus!
