//! What every press keeps: however entities are made, hung, grouped, copied
//! and taken away, none of them ever hangs below itself.

use vstd::prelude::*;
use crate::bake::{as_picks, blocks_of, groups_of, laid, open_sides, sides_of, Group};
use crate::change::Pressed;
use crate::copy::a_duplicate_stands_beside;
use crate::edit::{
    deleted_from, driver_of, entity_taken, replaced_is_sound, without, without_keeps_the_rest,
};
use crate::group::{children_of, gathered_under, let_go, new_group, place_for, put_under, ungrouped};
use crate::inspector::{all_spread, moved_among, written, Moved, Section};
use crate::make::{called, with_entity, with_pair, with_pieces, BOX};
use crate::panels::{
    applied, on_bake, on_block, on_decal, on_delete, on_drop, on_duplicate, on_edit, on_group,
    on_hang, on_hide, on_inside, on_inspect, on_light, on_redo, on_rename_asset, on_show, on_shut,
    on_undo, on_ungroup, on_water, on_word, with_group, without_groups, Held,
};
use crate::section::{
    entity_put, other_place, others_written, rows_of, rows_put, scene_placed, section_written,
    stand_told, text_in,
};
use crate::select::{picks_of, Pick};
use crate::table::{
    despawned, despawned_is_gone, lives, next_handle, replaced, sound, spawned, spawned_is_new,
    thing_at, Handle, Thing,
};
use crate::tree::{
    deepens, despawning_keeps_roots, hanging_keeps_roots, hung, known, may_hang, parent_of,
    parents_known, parents_stay_known, rooted, spawning_keeps_roots, Entities,
};
use crate::value::Said;
use crate::world::{
    plain_entity, Body, Described, Entity, EntityId, Piece, Transform, Worldly, MAX_ENTITIES,
};

verus! {

/// Whether entities hang as entities do: the table is sound, nothing hangs
/// below itself, and nothing names as its parent what is still to be made.
pub open spec fn planted(entities: Entities) -> bool {
    &&& sound(entities, MAX_ENTITIES as nat)
    &&& rooted(entities)
    &&& parents_known(entities)
}

/// Nothing is planted in an empty table, and so it is planted well.
pub proof fn nothing_is_planted()
    ensures
        planted(Seq::empty()),
{
    let none: Entities = Seq::empty();
    assert(deepens(none, |id: EntityId| 0nat));
}

/// An entity made standing on its own keeps everything planted.
proof fn spawning_keeps(entities: Entities, thing: Thing<Entity>)
    requires
        planted(entities),
        !thing.facts.parent.some(),
    ensures
        planted(spawned(entities, MAX_ENTITIES as nat, thing)),
{
    spawned_is_new(entities, MAX_ENTITIES as nat, thing, Handle::nothing());
    spawning_keeps_roots(entities, thing);
}

/// An entity taken away keeps everything planted.
proof fn despawning_keeps(entities: Entities, id: EntityId)
    requires
        planted(entities),
    ensures
        planted(despawned(entities, id)),
{
    despawned_is_gone(entities, MAX_ENTITIES as nat, id, id);
    despawning_keeps_roots(entities, id);
    parents_stay_known(entities, id, Handle::nothing());
}

/// Entities taken away together keep everything planted.
proof fn taking_away_keeps(entities: Entities, gone: spec_fn(Handle) -> bool)
    requires
        planted(entities),
    ensures
        planted(without(entities, gone)),
{
    let after = without(entities, gone);
    without_keeps_the_rest(entities, MAX_ENTITIES as nat, gone);
    let depth = choose|depth: spec_fn(EntityId) -> nat| deepens(entities, depth);
    assert forall|id: EntityId| lives(after, id) && parent_of(after, id).some() implies depth(
        #[trigger] parent_of(after, id),
    ) < depth(id) by {
        let up = thing_at(after, id).facts.parent;
        assert(lives(after, up));
        assert(lives(entities, up) && lives(entities, id));
        assert(parent_of(entities, id) == up);
    }
    assert(deepens(after, depth));
    assert forall|id: EntityId| lives(after, id) implies known(
        after,
        (#[trigger] thing_at(after, id)).facts.parent,
    ) by {
        assert(lives(entities, id));
        let up = thing_at(entities, id).facts.parent;
        assert(known(entities, up));
        if lives(entities, up) && !lives(after, up) {
            assert(entities[up.slot as int].generation < u32::MAX);
        }
    }
}

/// An entity changed without being hung elsewhere keeps everything planted.
proof fn changing_keeps(entities: Entities, id: EntityId, thing: Thing<Entity>)
    requires
        planted(entities),
        lives(entities, id) ==> thing.facts.parent == thing_at(entities, id).facts.parent,
    ensures
        planted(replaced(entities, id, thing)),
{
    let after = replaced(entities, id, thing);
    replaced_is_sound(entities, MAX_ENTITIES as nat, id, thing);
    let depth = choose|depth: spec_fn(EntityId) -> nat| deepens(entities, depth);
    assert forall|other: EntityId| lives(after, other) implies (#[trigger] thing_at(
        after,
        other,
    )).facts.parent == thing_at(entities, other).facts.parent by {
        assert(lives(entities, other));
    }
    assert forall|other: EntityId| #[trigger] parent_of(after, other) == parent_of(
        entities,
        other,
    ) by {
        assert(lives(after, other) == lives(entities, other));
        if lives(after, other) {
            let up = thing_at(after, other).facts.parent;
            assert(lives(after, up) == lives(entities, up));
        }
    }
    assert forall|other: EntityId| lives(after, other) && parent_of(after, other).some() implies depth(
        #[trigger] parent_of(after, other),
    ) < depth(other) by {
        assert(lives(entities, other));
        assert(depth(parent_of(entities, other)) < depth(other));
    }
    assert(deepens(after, depth));
    assert forall|other: EntityId| lives(after, other) implies known(
        after,
        (#[trigger] thing_at(after, other)).facts.parent,
    ) by {
        assert(lives(entities, other));
        let up = thing_at(entities, other).facts.parent;
        assert(known(entities, up));
        assert(lives(after, up) == lives(entities, up));
    }
}

/// An entity hung where it may be keeps everything planted.
proof fn hanging_keeps(entities: Entities, child: EntityId, parent: EntityId)
    requires
        planted(entities),
        may_hang(entities, child, parent),
    ensures
        planted(hung(entities, child, parent)),
        lives(hung(entities, child, parent), child),
{
    hanging_keeps_roots(entities, child, parent);
    parents_stay_known(entities, child, parent);
    let was = thing_at(entities, child);
    replaced_is_sound(
        entities,
        MAX_ENTITIES as nat,
        child,
        Thing { facts: Entity { parent, ..was.facts }, ..was },
    );
}

/// An entity put under another keeps everything planted.
proof fn putting_under_keeps(
    entities: Entities,
    child: EntityId,
    parent: EntityId,
    inside: Option<Transform>,
)
    requires
        planted(entities),
    ensures
        planted(put_under(entities, child, parent, inside)),
{
    if may_hang(entities, child, parent) {
        hanging_keeps(entities, child, parent);
        let there = hung(entities, child, parent);
        match inside {
            Some(transform) => {
                let now = thing_at(there, child);
                changing_keeps(
                    there,
                    child,
                    Thing { facts: Entity { transform, ..now.facts }, ..now },
                );
            },
            None => {},
        }
    }
}

/// Entities gathered under a group keep everything planted.
proof fn gathering_keeps(
    was: Entities,
    entities: Entities,
    picks: Seq<Pick>,
    group: EntityId,
    insides: Seq<(EntityId, Transform)>,
    count: nat,
)
    requires
        planted(entities),
    ensures
        planted(gathered_under(was, entities, picks, group, insides, count)),
    decreases count,
{
    if count > 0 {
        let less = (count - 1) as nat;
        gathering_keeps(was, entities, picks, group, insides, less);
        match picks[count - 1] {
            Pick::Entity(id) => {
                putting_under_keeps(
                    gathered_under(was, entities, picks, group, insides, less),
                    id,
                    group,
                    place_for(insides, id),
                );
            },
            _ => {},
        }
    }
}

/// Entities let go keep everything planted.
proof fn letting_go_keeps(
    entities: Entities,
    children: Seq<EntityId>,
    parent: EntityId,
    insides: Seq<(EntityId, Transform)>,
    count: nat,
)
    requires
        planted(entities),
    ensures
        planted(let_go(entities, children, parent, insides, count)),
    decreases count,
{
    if count > 0 {
        let less = (count - 1) as nat;
        letting_go_keeps(entities, children, parent, insides, less);
        putting_under_keeps(
            let_go(entities, children, parent, insides, less),
            children[count - 1],
            parent,
            place_for(insides, children[count - 1]),
        );
    }
}

/// Groups taken apart keep everything planted.
proof fn ungrouping_keeps(
    entities: Entities,
    picks: Seq<Pick>,
    insides: Seq<(EntityId, Transform)>,
    count: nat,
)
    requires
        planted(entities),
    ensures
        planted(ungrouped(entities, picks, insides, count).0),
    decreases count,
{
    if count > 0 {
        let less = (count - 1) as nat;
        ungrouping_keeps(entities, picks, insides, less);
        let so_far = ungrouped(entities, picks, insides, less).0;
        match picks[count - 1] {
            Pick::Entity(id) => {
                let children = children_of(so_far, id);
                letting_go_keeps(
                    so_far,
                    children,
                    parent_of(so_far, id),
                    insides,
                    children.len(),
                );
                despawning_keeps(
                    let_go(so_far, children, parent_of(so_far, id), insides, children.len()),
                    id,
                );
            },
            _ => {},
        }
    }
}

/// The pieces of a model keep everything planted.
proof fn pieces_keep(entities: Entities, parent: EntityId, pieces: Seq<Piece>)
    requires
        planted(entities),
    ensures
        planted(with_pieces(entities, parent, pieces)),
    decreases pieces.len(),
{
    if pieces.len() > 0 {
        pieces_keep(entities, parent, pieces.drop_last());
        let so_far = with_pieces(entities, parent, pieces.drop_last());
        let piece = pieces.last();
        let child = next_handle(so_far, MAX_ENTITIES as nat);
        let thing = called(
            piece.name,
            Entity {
                mesh: piece.mesh,
                material: piece.material,
                ..plain_entity(piece.transform)
            },
        );
        spawning_keeps(so_far, thing);
        let more = spawned(so_far, MAX_ENTITIES as nat, thing);
        if may_hang(more, child, parent) {
            hanging_keeps(more, child, parent);
        }
    }
}

/// A pair put in the world keeps everything planted.
proof fn pairs_keep(scene: Described, name: Seq<char>, facts: Entity, body: Body)
    requires
        planted(scene.entities),
        !facts.parent.some(),
    ensures
        planted(with_pair(scene, name, facts, body).0.entities),
        planted(with_entity(scene, name, facts).0.entities),
{
    let thing = called(name, facts);
    let made = next_handle(scene.entities, MAX_ENTITIES as nat);
    spawning_keeps(scene.entities, thing);
    despawning_keeps(spawned(scene.entities, MAX_ENTITIES as nat, thing), made);
}

/// What a bake leaves keeps everything planted.
proof fn laying_keeps(world: Worldly, name: Seq<char>, groups: Seq<Group>, count: nat)
    requires
        planted(world.scene.entities),
    ensures
        planted(laid(world, name, groups, count).0.scene.entities),
    decreases count,
{
    if count > 0 {
        let less = (count - 1) as nat;
        laying_keeps(world, name, groups, less);
        let so_far = laid(world, name, groups, less).0;
        let material = groups[count - 1].material;
        let under = crate::bake::mesh_name(so_far.materials, name, material);
        let mesh = crate::world::insert_number(so_far.meshes, under) as u32;
        spawning_keeps(
            so_far.scene.entities,
            called(
                crate::bake::plain_name(so_far.materials, material),
                Entity { mesh, material, ..plain_entity(crate::world::identity()) },
            ),
        );
    }
}

/// Deleting keeps everything planted.
proof fn deleting_keeps(scene: Described, picks: Seq<Pick>)
    requires
        planted(scene.entities),
    ensures
        planted(deleted_from(scene, picks).entities),
{
    taking_away_keeps(
        scene.entities,
        |id: EntityId| entity_taken(scene.entities, picks, id),
    );
}

/// A press keeps everything planted: no press ever hangs an entity below
/// itself, however many things it makes, copies, hangs or takes away.
pub proof fn a_press_keeps_everything_planted(held: Held, world: Worldly, change: Pressed)
    requires
        planted(world.scene.entities),
    ensures
        planted(applied(held, world, change).1.scene.entities),
{
    reveal(on_delete);
    reveal(on_duplicate);
    reveal(on_hang);
    reveal(on_group);
    reveal(on_ungroup);
    reveal(on_inside);
    reveal(on_hide);
    reveal(on_edit);
    reveal(on_undo);
    reveal(on_redo);
    reveal(on_inspect);
    reveal(on_rename_asset);
    reveal(on_show);
    reveal(on_shut);
    reveal(on_water);
    reveal(on_block);
    reveal(on_decal);
    reveal(on_bake);
    reveal(on_light);
    reveal(on_drop);
    reveal(on_word);
    let scene = world.scene;
    let entities = scene.entities;
    let picks = picks_of(held.selection);
    match change {
        Pressed::Delete => {
            deleting_keeps(scene, picks);
        },
        Pressed::Duplicate => {
            a_duplicate_stands_beside(entities, picks);
        },
        Pressed::Hang { child, parent, inside } => {
            putting_under_keeps(entities, child, parent, Some(inside));
        },
        Pressed::Hide { entity, hidden } => {
            let was = thing_at(entities, entity);
            changing_keeps(
                entities,
                entity,
                Thing { facts: Entity { hidden, ..was.facts }, ..was },
            );
        },
        Pressed::Water { standing, material } => {
            pairs_keep(
                scene,
                "water"@,
                Entity { mesh: crate::make::CUBE, material, ..plain_entity(standing) },
                crate::make::still_box(standing, true),
            );
        },
        Pressed::Block(standing) => {
            pairs_keep(
                scene,
                "block"@,
                Entity { mesh: crate::make::CUBE, ..plain_entity(standing) },
                crate::make::still_box(standing, false),
            );
        },
        Pressed::Decal(standing) => {
            pairs_keep(
                scene,
                "decal"@,
                Entity { decal: BOX, ..plain_entity(standing) },
                crate::make::still_box(standing, false),
            );
        },
        Pressed::Bake(filed, walls) => {
            let name = crate::make::stem_of(crate::text::trimmed(filed));
            let blocks = blocks_of(scene, picks);
            deleting_keeps(scene, as_picks(blocks));
            let groups = groups_of(
                open_sides(sides_of(world.scene, picks_of(held.selection), walls)),
            );
            laying_keeps(
                Worldly { scene: deleted_from(scene, as_picks(blocks)), ..world },
                name,
                groups,
                groups.len(),
            );
        },
        Pressed::Drop { name, kind, standing } => {
            let mesh = crate::world::number_of(world.meshes, name);
            let called_as = crate::make::stem_of(name);
            pairs_keep(
                scene,
                called_as,
                Entity { mesh: mesh as u32, ..plain_entity(standing) },
                crate::make::still_box(standing, false),
            );
            pairs_keep(
                scene,
                called_as,
                plain_entity(standing),
                crate::make::still_box(standing, false),
            );
            let model = crate::world::number_of(world.models, name);
            pieces_keep(
                with_entity(scene, called_as, plain_entity(standing)).0.entities,
                next_handle(entities, MAX_ENTITIES as nat),
                world.pieces[model as int],
            );
        },
        _ => {},
    }
}

/// So do groups, made and taken apart.
pub proof fn groups_keep_everything_planted(
    held: Held,
    world: Worldly,
    standing: Transform,
    insides: Seq<(EntityId, Transform)>,
)
    requires
        planted(world.scene.entities),
    ensures
        planted(with_group(held, world, standing, insides).1.scene.entities),
        planted(without_groups(held, world, insides).1.scene.entities),
{
    let entities = world.scene.entities;
    let picks = picks_of(held.selection);
    let group = next_handle(entities, MAX_ENTITIES as nat);
    spawning_keeps(entities, new_group(standing));
    gathering_keeps(
        entities,
        spawned(entities, MAX_ENTITIES as nat, new_group(standing)),
        picks,
        group,
        insides,
        picks.len(),
    );
    ungrouping_keeps(entities, picks, insides, picks.len());
}

/// Rows written to a thing keep everything planted.
proof fn rows_keep(
    world: Worldly,
    pick: Pick,
    section: Section,
    rows: Seq<Said>,
    places: Seq<(Pick, Transform)>,
)
    requires
        planted(world.scene.entities),
    ensures
        planted(rows_put(world, pick, section, rows, places).scene.entities),
{
    let entities = world.scene.entities;
    match pick {
        Pick::Entity(id) => if lives(entities, id) {
            let thing = thing_at(entities, id);
            if section == Section::Naming {
                changing_keeps(entities, id, Thing { name: text_in(rows, 0, thing.name), ..thing });
            } else if section == Section::Placing {
                placing_keeps(world.scene, pick, thing.facts.transform, rows, places);
            } else {
                changing_keeps(entities, id, entity_put(thing, section, rows));
            }
        },
        Pick::Body(id) => if lives(world.scene.bodies, id) && section == Section::Placing {
            let held = thing_at(world.scene.bodies, id).facts.transform;
            placing_keeps(world.scene, pick, held, rows, places);
        },
        _ => {},
    }
}

/// Something put somewhere keeps everything planted.
proof fn placing_keeps(
    scene: Described,
    pick: Pick,
    held: Transform,
    rows: Seq<Said>,
    places: Seq<(Pick, Transform)>,
)
    requires
        planted(scene.entities),
    ensures
        planted(scene_placed(scene, pick, held, rows, places).entities),
{
    let own = stand_told(held, rows);
    match other_place(scene, pick, own, places) {
        None => {},
        Some(other) => {
            let (moving, inside) = match pick {
                Pick::Entity(id) => match driver_of(scene.bodies, id) {
                    Some(body) => (thing_at(scene.bodies, body).facts.entity, own),
                    None => (id, own),
                },
                Pick::Body(id) => (thing_at(scene.bodies, id).facts.entity, other),
                _ => (Handle::nothing(), own),
            };
            let thing = thing_at(scene.entities, moving);
            changing_keeps(
                scene.entities,
                moving,
                Thing { facts: Entity { transform: inside, ..thing.facts }, ..thing },
            );
        },
    }
}

/// Rows written to the others keep everything planted.
proof fn others_keep(
    world: Worldly,
    pick: Pick,
    others: Seq<Pick>,
    section: Section,
    edits: Seq<Moved>,
    places: Seq<(Pick, Transform)>,
    count: nat,
)
    requires
        planted(world.scene.entities),
    ensures
        planted(
            others_written(
                world,
                pick,
                others,
                section,
                edits,
                places,
                count,
            ).scene.entities,
        ),
    decreases count,
{
    if count > 0 {
        let less = (count - 1) as nat;
        others_keep(world, pick, others, section, edits, places, less);
        let so_far = others_written(world, pick, others, section, edits, places, less);
        let other = others[less as int];
        let mine = all_spread(rows_of(so_far, other, section), edits);
        rows_keep(so_far, other, section, mine, places);
    }
}

/// So does whatever is written in the inspector.
pub proof fn an_edit_keeps_everything_planted(
    world: Worldly,
    pick: Pick,
    others: Seq<Pick>,
    section: Section,
    now: Seq<Said>,
    places: Seq<(Pick, Transform)>,
)
    requires
        planted(world.scene.entities),
    ensures
        planted(
            section_written(world, pick, others, section, now, places).scene.entities,
        ),
{
    let held = rows_of(world, pick, section);
    let edits = moved_among(held, now, held.len());
    let first = rows_put(world, pick, section, written(held, now), places);
    rows_keep(world, pick, section, written(held, now), places);
    others_keep(first, pick, others, section, edits, places, others.len());
}

} // verus!
