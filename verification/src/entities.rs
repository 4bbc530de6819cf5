//! The entity table as a plain list, and one entity at a time in detail.

use vstd::prelude::*;
use vstd::string::*;
use crate::edit::stood;
use crate::table::{lives, living, thing_at, Table};
use crate::text::{decimal, digits, plus};
use crate::tree::Entities;
use crate::world::{
    asset_name, same_transform, stands_alike, Entity, EntityId, Transform, World, Worldly,
};

verus! {

/// What an entity of the list draws.
pub open spec fn drawn_words(world: Worldly, id: EntityId) -> Seq<char> {
    let mesh = if lives(world.scene.entities, id) {
        thing_at(world.scene.entities, id).facts.mesh
    } else {
        0
    };
    if 0 < mesh < world.meshes.len() {
        asset_name(world.meshes, mesh)
    } else {
        "nothing"@
    }
}

/// One line of the list: its place, and what it draws.
pub open spec fn row_words(world: Worldly, listed: Seq<EntityId>, index: int) -> Seq<char> {
    digits(index as nat) + "  "@ + drawn_words(world, listed[index])
}

/// Every living entity, one line each.
pub fn rows(world: &World) -> (result: Vec<String>)
    requires
        world.wf(),
    ensures
        ({
            let listed = living(world.view().scene.entities);
            &&& result@.len() == listed.len()
            &&& forall|i: int|
                0 <= i < listed.len() ==> (#[trigger] result@[i])@ == row_words(
                    world.view(),
                    listed,
                    i,
                )
        }),
{
    let listed: Vec<EntityId> = world.scene.entities.ids();
    let ghost all = listed@;
    let mut out: Vec<String> = Vec::new();
    let mut i: usize = 0;
    while i < listed.len()
        invariant
            i <= listed@.len(),
            listed@ == all,
            all == living(world.view().scene.entities),
            out@.len() == i,
            forall|k: int|
                0 <= k < i ==> (#[trigger] out@[k])@ == row_words(world.view(), all, k),
        decreases listed@.len() - i,
    {
        let mesh: u32 = match world.scene.entities.get(listed[i]) {
            Some(facts) => facts.mesh,
            None => 0,
        };
        let drawn: &str = if mesh != 0 && world.meshes.held(mesh) {
            world.meshes.name(mesh)
        } else {
            "nothing"
        };
        let head: String = plus(decimal(i as u64).as_str(), "  ");
        out.push(plus(head.as_str(), drawn));
        i = i + 1;
    }
    out
}

/// Entities once a transform was dragged: only a drag that changed something
/// is written.
pub open spec fn dragged(entities: Entities, id: EntityId, edited: Transform) -> Entities {
    if lives(entities, id) && !stands_alike(thing_at(entities, id).facts.transform, edited) {
        stood(entities, id, edited)
    } else {
        entities
    }
}

/// Writes a transform somebody dragged. Whether it moved: what is moved is
/// not drawn traveling.
pub fn drag(entities: &mut Table<Entity>, id: EntityId, edited: Transform) -> (result: bool)
    requires
        old(entities).wf(),
    ensures
        final(entities).wf(),
        final(entities).room() == old(entities).room(),
        final(entities).view() == dragged(old(entities).view(), id, edited),
        result == (lives(old(entities).view(), id) && !stands_alike(
            thing_at(old(entities).view(), id).facts.transform,
            edited,
        )),
{
    match entities.get(id) {
        None => false,
        Some(facts) => {
            if same_transform(facts.transform, edited) {
                return false;
            }
            let moved: Entity = Entity { transform: edited, ..facts };
            entities.set(id, moved);
            true
        },
    }
}

/// Dragging an entity puts it where it was dragged and changes nothing else of it
/// and nothing of any other; a drag back to where it stands writes nothing.
pub proof fn dragging_moves_one(entities: Entities, id: EntityId, edited: Transform, other: EntityId)
    ensures
        ({
            let after = dragged(entities, id, edited);
            let was = thing_at(entities, id);
            &&& lives(after, other) == lives(entities, other)
            &&& lives(entities, other) && other != id ==> thing_at(after, other) == thing_at(
                entities,
                other,
            )
            &&& lives(entities, id) && !stands_alike(was.facts.transform, edited) ==> thing_at(
                after,
                id,
            ) == (crate::table::Thing {
                facts: Entity { transform: edited, ..was.facts },
                ..was
            })
            &&& stands_alike(was.facts.transform, edited) ==> after == entities
            &&& !lives(entities, id) ==> after == entities
        }),
{
}

/// A line of the list names the mesh its entity draws, and says that one that
/// draws none draws nothing.
pub proof fn a_line_names_what_is_drawn(world: Worldly, id: EntityId)
    requires
        lives(world.scene.entities, id),
    ensures
        ({
            let mesh = thing_at(world.scene.entities, id).facts.mesh;
            &&& 0 < mesh < world.meshes.len() ==> drawn_words(world, id)
                == world.meshes[mesh as int].name
            &&& mesh == 0 ==> drawn_words(world, id) == "nothing"@
        }),
{
}

} // verus!
