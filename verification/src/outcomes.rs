//! What the operations come to, in terms of what stands in the world before and
//! after: what is new, what it is, and that everything else stands as it stood.

use vstd::prelude::*;
use crate::bake::{
    as_picks, baked_world, blocks_of, groups_of, laid, laid_one, mesh_name, open_sides, Group, Side,
};
use crate::change::Pressed;
use crate::edit::{
    body_taken, deleted_from, entity_taken, filter_contains, joint_taken, replaced_is_sound,
    without_keeps_the_rest,
};
use crate::make::{
    called, stem_of, still_box, with_entity, with_pair, with_pieces, BOX, CUBE,
};
use crate::panels::{
    applied, dropped, on_block, on_decal, on_hide, on_water, selected_all, Held, Outcome,
};
use crate::select::Pick;
use crate::table::{
    grown, lives, living, living_resolves, next_handle, replaced, room_left, sound, spawned,
    spawned_is_new, spawning_grows, spawning_takes_room, thing_at, Handle, Standing, Thing,
};
use crate::tree::{
    parents_known,     below, hung, may_hang, parent_of, rooted, the_walk_finds_it, visible, Entities,
};
use crate::world::{
    asset_name, identity, insert_number, inserted, inserted_is_found, known, number_of, numbered,
    numbered_is_first, plain_entity, Body, BodyId, BodyKind, Described, Entity, EntityId, Known,
    JointId, LightKind, Piece, ShapeKind, Transform, Worldly, MAX_BODIES, MAX_ENTITIES, MAX_JOINTS,
};

verus! {

/// Whether two tables hold the same things but for one.
pub open spec fn same_but_for<F>(
    before: Seq<Standing<F>>,
    after: Seq<Standing<F>>,
    id: Handle,
) -> bool {
    &&& forall|other: Handle| #[trigger] lives(after, other) == lives(before, other)
    &&& forall|other: Handle|
        lives(before, other) && other != id ==> #[trigger] thing_at(after, other) == thing_at(
            before,
            other,
        )
}

/// Pressing the eye of an entity hides it or shows it, as it was asked, and
/// nothing else of it or of anything else; so an entity that was shown and is
/// hidden and shown again leaves the scene as it was.
pub proof fn the_eye_hides_and_shows(
    held: Held,
    world: Worldly,
    entity: EntityId,
    hidden: bool,
    then: Held,
)
    requires
        sound(world.scene.entities, MAX_ENTITIES as nat),
        lives(world.scene.entities, entity),
    ensures
        ({
            let after = applied(held, world, Pressed::Hide { entity, hidden }).1;
            let was = thing_at(world.scene.entities, entity);
            let now = thing_at(after.scene.entities, entity);
            &&& now.facts.hidden == hidden
            &&& now == (Thing { facts: Entity { hidden, ..was.facts }, ..was })
            &&& same_but_for(world.scene.entities, after.scene.entities, entity)
            &&& after == (Worldly {
                scene: Described { entities: after.scene.entities, ..world.scene },
                ..world
            })
            &&& hidden ==> !visible(after.scene.entities, entity, MAX_ENTITIES as nat)
            &&& !hidden && !parent_of(world.scene.entities, entity).some() ==> visible(
                after.scene.entities,
                entity,
                MAX_ENTITIES as nat,
            )
            &&& applied(
                then,
                after,
                Pressed::Hide { entity, hidden: was.facts.hidden },
            ).1 == world
        }),
{
    reveal(on_hide);
    let entities = world.scene.entities;
    let was = thing_at(entities, entity);
    let put = Thing { facts: Entity { hidden, ..was.facts }, ..was };
    replaced_is_sound(entities, MAX_ENTITIES as nat, entity, put);
    let after = applied(held, world, Pressed::Hide { entity, hidden }).1;
    assert(after.scene.entities == replaced(entities, entity, put));
    assert forall|other: Handle|
        lives(entities, other) && other != entity implies #[trigger] thing_at(
        after.scene.entities,
        other,
    ) == thing_at(entities, other) by {
        assert(other.slot != entity.slot);
    }
    let back = applied(then, after, Pressed::Hide { entity, hidden: was.facts.hidden }).1;
    assert(back.scene.entities =~= entities);
    if !parent_of(entities, entity).some() {
        let up = was.facts.parent;
        assert(lives(after.scene.entities, up) == lives(entities, up));
    }
}

/// Whether an entity is a new one that stands somewhere and is nothing else in
/// particular: on its own, shown, drawing what it is said to draw.
pub open spec fn stands_new(thing: Thing<Entity>, name: Seq<char>, facts: Entity) -> bool {
    &&& thing.name == name
    &&& thing.notes.len() == 0
    &&& thing.sheets.len() == 0
    &&& thing.facts == facts
    &&& !facts.hidden
    &&& facts.takes_decals
    &&& facts.light.kind == LightKind::Dark
    &&& facts.emitter == 0
    &&& facts.terrain == 0
    &&& !facts.group
}

/// One entity more.
proof fn one_more(scene: Described, name: Seq<char>, facts: Entity)
    requires
        sound(scene.entities, MAX_ENTITIES as nat),
        room_left(scene.entities, MAX_ENTITIES as nat) > 0,
    ensures
        ({
            let (after, picks) = with_entity(scene, name, facts);
            &&& picks.len() == 1
            &&& picks[0] is Entity
            &&& grown(scene.entities, after.entities, seq![picks[0]->Entity_0])
            &&& thing_at(after.entities, picks[0]->Entity_0) == called(name, facts)
            &&& after == (Described { entities: after.entities, ..scene })
            &&& sound(after.entities, MAX_ENTITIES as nat)
            &&& room_left(after.entities, MAX_ENTITIES as nat) + 1 == room_left(
                scene.entities,
                MAX_ENTITIES as nat,
            )
        }),
{
    let limit = MAX_ENTITIES as nat;
    let thing = called(name, facts);
    let id = next_handle(scene.entities, limit);
    spawning_takes_room(scene.entities, limit, thing);
    spawning_grows(scene.entities, scene.entities, limit, Seq::empty(), thing);
    assert(Seq::<Handle>::empty().push(id) =~= seq![id]);
}

/// Dropping a mesh puts one entity more in the world, where it was dropped,
/// drawing that mesh in the default material and called after it, and selects
/// it. Nothing else changes. A mesh nobody registered makes nothing.
pub proof fn a_dropped_mesh_is_one_entity(world: Worldly, name: Seq<char>, standing: Transform)
    requires
        sound(world.scene.entities, MAX_ENTITIES as nat),
        room_left(world.scene.entities, MAX_ENTITIES as nat) > 0,
        world.meshes.len() <= u32::MAX,
    ensures
        ({
            let (after, picks) = dropped(world, name, crate::catalog::Kind::Mesh, standing);
            let entities = after.scene.entities;
            &&& after == (Worldly {
                scene: Described { entities, ..world.scene },
                ..world
            })
            &&& (forall|i: int|
                1 <= i < world.meshes.len() ==> (#[trigger] world.meshes[i]).name != name) ==> after
                == world && picks.len() == 0
            &&& (exists|i: int| 1 <= i < world.meshes.len() && (#[trigger] world.meshes[i]).name
                == name) ==> {
                &&& picks.len() == 1
                &&& picks[0] is Entity
                &&& grown(world.scene.entities, entities, seq![picks[0]->Entity_0])
                &&& ({
                    let now = thing_at(entities, picks[0]->Entity_0);
                    &&& now.facts.mesh > 0
                    &&& world.meshes[now.facts.mesh as int].name == name
                    &&& now.facts.material == 0
                    &&& now.facts.transform == standing
                    &&& !now.facts.parent.some()
                    &&& now.facts.decal == 0
                    &&& stands_new(now, stem_of(name), now.facts)
                })
            }
        }),
{
    numbered_is_first(world.meshes, name, 1);
    let mesh = number_of(world.meshes, name);
    one_more(
        world.scene,
        stem_of(name),
        Entity { mesh: mesh as u32, ..plain_entity(standing) },
    );
}

/// A child hung off an entity that stands on its own hangs there.
proof fn hanging_a_new_child(entities: Entities, child: EntityId, top: EntityId)
    requires
        sound(entities, MAX_ENTITIES as nat),
        lives(entities, child),
        lives(entities, top),
        child != top,
        !thing_at(entities, top).facts.parent.some(),
    ensures
        may_hang(entities, child, top),
        sound(hung(entities, child, top), MAX_ENTITIES as nat),
        same_but_for(entities, hung(entities, child, top), child),
        thing_at(hung(entities, child, top), child) == (Thing {
            facts: Entity { parent: top, ..thing_at(entities, child).facts },
            ..thing_at(entities, child)
        }),
{
    let none = thing_at(entities, top).facts.parent;
    if lives(entities, none) {
        assert(entities[none.slot as int].generation >= 1);
    }
    assert(parent_of(entities, top) == Handle::nothing());
    let was = thing_at(entities, child);
    let put = Thing { facts: Entity { parent: top, ..was.facts }, ..was };
    replaced_is_sound(entities, MAX_ENTITIES as nat, child, put);
    let after = hung(entities, child, top);
    assert forall|other: Handle|
        lives(entities, other) && other != child implies #[trigger] thing_at(after, other)
        == thing_at(entities, other) by {
        assert(other.slot != child.slot);
    }
}

/// Whether several entities are the children of one, a piece of a model each.
pub open spec fn are_pieces(
    entities: Entities,
    top: EntityId,
    made: Seq<EntityId>,
    pieces: Seq<Piece>,
) -> bool {
    &&& made.len() == pieces.len()
    &&& forall|i: int|
        0 <= i < made.len() ==> {
            let now = thing_at(entities, #[trigger] made[i]);
            &&& now.facts.parent == top
            &&& now.facts.transform == pieces[i].transform
            &&& now.facts.mesh == pieces[i].mesh
            &&& now.facts.material == pieces[i].material
            &&& now.facts.decal == 0
            &&& stands_new(now, pieces[i].name, now.facts)
        }
}

/// The pieces of a model, one after the other.
proof fn pieces_stand(
    before: Entities,
    entities: Entities,
    top: EntityId,
    pieces: Seq<Piece>,
) -> (made: Seq<EntityId>)
    requires
        sound(entities, MAX_ENTITIES as nat),
        grown(before, entities, seq![top]),
        top.some(),
        !thing_at(entities, top).facts.parent.some(),
        room_left(entities, MAX_ENTITIES as nat) >= pieces.len(),
    ensures
        ({
            let after = with_pieces(entities, top, pieces);
            &&& sound(after, MAX_ENTITIES as nat)
            &&& grown(before, after, seq![top] + made)
            &&& thing_at(after, top) == thing_at(entities, top)
            &&& are_pieces(after, top, made, pieces)
            &&& room_left(after, MAX_ENTITIES as nat) + pieces.len() == room_left(
                entities,
                MAX_ENTITIES as nat,
            )
        }),
    decreases pieces.len(),
{
    let limit = MAX_ENTITIES as nat;
    let after = with_pieces(entities, top, pieces);
    if pieces.len() == 0 {
        assert(seq![top] + Seq::<EntityId>::empty() =~= seq![top]);
        Seq::empty()
    } else {
        let less = pieces.drop_last();
        let fewer = pieces_stand(before, entities, top, less);
        let so_far = with_pieces(entities, top, less);
        let piece = pieces.last();
        let child = next_handle(so_far, limit);
        let facts = Entity {
            mesh: piece.mesh,
            material: piece.material,
            ..plain_entity(piece.transform)
        };
        let thing = called(piece.name, facts);
        let all = seq![top] + fewer;
        spawning_takes_room(so_far, limit, thing);
        spawning_grows(before, so_far, limit, all, thing);
        let more = spawned(so_far, limit, thing);
        assert(all[0] == top);
        assert(thing_at(more, all[0]) == thing_at(so_far, all[0]));
        let grew = all.push(child);
        assert(grew[0] == top && grew[grew.len() - 1] == child);
        assert(child != top);
        hanging_a_new_child(more, child, top);
        let made = fewer.push(child);
        assert(seq![top] + made =~= grew);
        assert forall|i: int| 0 <= i < fewer.len() implies #[trigger] thing_at(after, fewer[i])
            == thing_at(so_far, fewer[i]) by {
            assert(all[i + 1] == fewer[i]);
            assert(thing_at(more, all[i + 1]) == thing_at(so_far, all[i + 1]));
            assert(grew[i + 1] == fewer[i]);
            assert(grew[i + 1] != grew[grew.len() - 1]);
            assert(lives(more, grew[i + 1]));
        }
        assert forall|i: int| 0 <= i < made.len() implies {
            let now = thing_at(after, #[trigger] made[i]);
            &&& now.facts.parent == top
            &&& now.facts.transform == pieces[i].transform
            &&& now.facts.mesh == pieces[i].mesh
            &&& now.facts.material == pieces[i].material
            &&& now.facts.decal == 0
            &&& stands_new(now, pieces[i].name, now.facts)
        } by {
            if i < fewer.len() {
                assert(made[i] == fewer[i]);
                assert(less[i] == pieces[i]);
                assert(thing_at(after, fewer[i]) == thing_at(so_far, fewer[i]));
            }
        }
        assert forall|id: Handle| lives(before, id) implies #[trigger] thing_at(after, id)
            == thing_at(before, id) by {
            assert(lives(more, id));
            assert(thing_at(more, id) == thing_at(before, id));
            assert(!lives(before, grew[grew.len() - 1]));
        }
        assert forall|k: int| 0 <= k < grew.len() implies lives(after, #[trigger] grew[k]) && !lives(
            before,
            grew[k],
        ) by {
            assert(lives(more, grew[k]));
        }
        assert forall|id: Handle| #[trigger] lives(after, id) implies lives(before, id)
            || grew.contains(id) by {
            assert(lives(more, id));
        }
        assert forall|id: Handle| #[trigger] lives(before, id) implies lives(after, id) by {
            assert(lives(more, id));
        }
        vacancies_stay(more, child, thing_at(after, child));
        made
    }
}

/// Changing what stands in a slot leaves as much room as there was.
proof fn vacancies_stay(entities: Entities, id: EntityId, thing: Thing<Entity>)
    requires
        lives(entities, id),
    ensures
        room_left(replaced(entities, id, thing), MAX_ENTITIES as nat) == room_left(
            entities,
            MAX_ENTITIES as nat,
        ),
{
    let standing = Standing { generation: id.generation, thing: Some(thing) };
    vacancies_stay_at(entities, id.slot as int, standing);
}

/// Changing what stands in a slot leaves as many that can be given away.
proof fn vacancies_stay_at(entities: Entities, at: int, standing: Standing<Entity>)
    requires
        0 <= at < entities.len(),
        entities[at].thing is Some,
        standing.thing is Some,
    ensures
        crate::table::vacant(entities.update(at, standing)) == crate::table::vacant(entities),
    decreases entities.len(),
{
    let less = entities.drop_last();
    let after = entities.update(at, standing);
    if at < less.len() {
        vacancies_stay_at(less, at, standing);
        assert(after.drop_last() =~= less.update(at, standing));
    } else {
        assert(after.drop_last() =~= less);
    }
}

/// Dropping a model puts an entity in the world, where it was dropped and called
/// after the model, with a child hanging off it for every piece: called what the
/// piece is called, standing where the model puts it, drawing the piece's mesh in
/// the piece's material. The entity is what is selected, and nothing else is new
/// or changes. A model nobody registered makes nothing.
pub proof fn a_dropped_model_is_its_pieces(
    world: Worldly,
    name: Seq<char>,
    standing: Transform,
) -> (made: Seq<EntityId>)
    requires
        sound(world.scene.entities, MAX_ENTITIES as nat),
        number_of(world.models, name) > 0 ==> room_left(world.scene.entities, MAX_ENTITIES as nat)
            > world.pieces[number_of(world.models, name) as int].len(),
    ensures
        ({
            let (after, picks) = dropped(world, name, crate::catalog::Kind::Model, standing);
            let entities = after.scene.entities;
            let model = number_of(world.models, name);
            &&& after == (Worldly {
                scene: Described { entities, ..world.scene },
                ..world
            })
            &&& (forall|i: int|
                1 <= i < world.models.len() ==> (#[trigger] world.models[i]).name != name) ==> after
                == world && picks.len() == 0
            &&& (exists|i: int| 1 <= i < world.models.len() && (#[trigger] world.models[i]).name
                == name) ==> {
                &&& 0 < model < world.models.len()
                &&& world.models[model as int].name == name
                &&& picks.len() == 1
                &&& picks[0] is Entity
                &&& grown(world.scene.entities, entities, seq![picks[0]->Entity_0] + made)
                &&& ({
                    let top = thing_at(entities, picks[0]->Entity_0);
                    &&& top.facts.transform == standing
                    &&& !top.facts.parent.some()
                    &&& top.facts.mesh == 0
                    &&& top.facts.material == 0
                    &&& top.facts.decal == 0
                    &&& stands_new(top, stem_of(name), top.facts)
                })
                &&& are_pieces(
                    entities,
                    picks[0]->Entity_0,
                    made,
                    world.pieces[model as int],
                )
            }
        }),
{
    numbered_is_first(world.models, name, 1);
    let model = number_of(world.models, name);
    if model == 0 {
        Seq::empty()
    } else {
        let pieces = world.pieces[model as int];
        one_more(world.scene, stem_of(name), plain_entity(standing));
        let (top, picks) = with_entity(world.scene, stem_of(name), plain_entity(standing));
        let id = picks[0]->Entity_0;
        assert(seq![id][0] == id);
        assert(lives(top.entities, id));
        assert(top.entities[id.slot as int].generation >= 1);
        pieces_stand(world.scene.entities, top.entities, id, pieces)
    }
}

/// Registering an asset leaves every other name its number.
proof fn numbers_stay(assets: Seq<Known>, asset: Known, name: Seq<char>)
    requires
        number_of(assets, name) > 0,
    ensures
        number_of(inserted(assets, asset), name) == number_of(assets, name),
{
    let after = inserted(assets, asset);
    numbered_is_first(assets, name, 1);
    numbered_is_first(assets, asset.name, 1);
    numbered_is_first(after, name, 1);
    let number = number_of(assets, name) as int;
    assert forall|i: int| 0 <= i < assets.len() implies (#[trigger] after[i]).name
        == assets[i].name by {}
    assert(after[number].name == name);
    match numbered(after, name, 1) {
        None => {
            assert(after[number].name != name);
        },
        Some(found) => {
            if found < number {
                assert(after[found as int].name == assets[found as int].name);
            } else if found > number {
                assert(after[number].name != name);
            }
        },
    }
}

/// Whether a handle is to something that went.
pub open spec fn stale<F>(table: Seq<Standing<F>>, id: Handle) -> bool {
    id.slot < table.len() && id.generation < table[id.slot as int].generation
}

/// The entities among several things picked, where they all are entities.
pub open spec fn entities_in(picks: Seq<Pick>) -> Seq<EntityId> {
    Seq::new(picks.len(), |i: int| picks[i]->Entity_0)
}

/// What a material's faces are called after: the last part of the material's
/// name, or a word for one without.
pub open spec fn faces_word(materials: Seq<Known>, material: u32) -> Seq<char> {
    let last = stem_of(asset_name(materials, material));
    if last.len() == 0 {
        "default"@
    } else {
        last
    }
}

/// What a material's faces are registered under.
pub open spec fn faces_name(materials: Seq<Known>, name: Seq<char>, material: u32) -> Seq<char> {
    "maps/"@ + name + "/"@ + faces_word(materials, material)
}

/// Whether an entity and a body are what a bake leaves for a material: an entity
/// that draws the mesh registered for it in that material, standing unmoved, and
/// a still body that drives it and collides as that mesh.
pub open spec fn is_baked(
    world: Worldly,
    name: Seq<char>,
    material: u32,
    entity: EntityId,
    body: BodyId,
) -> bool {
    let thing = thing_at(world.scene.entities, entity);
    let under = thing_at(world.scene.bodies, body);
    &&& thing.facts.material == material
    &&& thing.facts.mesh > 0
    &&& thing.facts.mesh == number_of(world.meshes, faces_name(world.materials, name, material))
    &&& world.meshes[thing.facts.mesh as int].drawn
    &&& thing.facts.transform == identity()
    &&& !thing.facts.parent.some()
    &&& thing.facts.decal == 0
    &&& stands_new(thing, faces_word(world.materials, material), thing.facts)
    &&& under.name == faces_word(world.materials, material)
    &&& under.facts.entity == entity
    &&& under.facts.kind == BodyKind::Static
    &&& under.facts.shape == ShapeKind::Mesh
    &&& under.facts.collider == thing.facts.mesh
    &&& under.facts.transform == identity()
    &&& !under.facts.sensor
    &&& !under.facts.wet
}

/// What is left of a material's faces stays so while another's are laid.
proof fn laying_keeps_what_is_laid(
    world: Worldly,
    made: Seq<Pick>,
    name: Seq<char>,
    material: u32,
    other: u32,
    entity: EntityId,
    body: BodyId,
)
    requires
        sound(world.scene.entities, MAX_ENTITIES as nat),
        sound(world.scene.bodies, MAX_BODIES as nat),
        next_handle(world.scene.entities, MAX_ENTITIES as nat).some(),
        lives(world.scene.entities, entity),
        lives(world.scene.bodies, body),
        is_baked(world, name, other, entity, body),
    ensures
        is_baked(laid_one(world, made, name, material).0, name, other, entity, body),
{
    let after = laid_one(world, made, name, material).0;
    let under = mesh_name(world.materials, name, material);
    numbered_is_first(world.meshes, under, 1);
    let wanted = faces_name(world.materials, name, other);
    numbered_is_first(world.meshes, wanted, 1);
    numbers_stay(world.meshes, known(under, true), wanted);
    let mesh = insert_number(world.meshes, under) as u32;
    let plain = crate::bake::plain_name(world.materials, material);
    spawned_is_new(
        world.scene.entities,
        MAX_ENTITIES as nat,
        called(plain, Entity { mesh, material, ..plain_entity(identity()) }),
        entity,
    );
    spawned_is_new(
        world.scene.bodies,
        MAX_BODIES as nat,
        called(
            plain,
            crate::bake::baked_body(
                next_handle(world.scene.entities, MAX_ENTITIES as nat),
                mesh,
            ),
        ),
        body,
    );
}

/// What a bake leaves, one material after the other.
proof fn materials_are_laid(world: Worldly, name: Seq<char>, groups: Seq<Group>, count: nat) -> (under:
    Seq<BodyId>)
    requires
        sound(world.scene.entities, MAX_ENTITIES as nat),
        sound(world.scene.bodies, MAX_BODIES as nat),
        count <= groups.len(),
        room_left(world.scene.entities, MAX_ENTITIES as nat) >= count,
        room_left(world.scene.bodies, MAX_BODIES as nat) >= count,
        0 < world.meshes.len(),
        world.meshes.len() + count < u32::MAX,
    ensures
        ({
            let (after, made) = laid(world, name, groups, count);
            &&& made.len() == count
            &&& under.len() == count
            &&& forall|k: int| 0 <= k < count ==> (#[trigger] made[k]) is Entity
            &&& sound(after.scene.entities, MAX_ENTITIES as nat)
            &&& sound(after.scene.bodies, MAX_BODIES as nat)
            &&& grown(world.scene.entities, after.scene.entities, entities_in(made))
            &&& grown(world.scene.bodies, after.scene.bodies, under)
            &&& after.materials == world.materials
            &&& after == (Worldly {
                meshes: after.meshes,
                scene: Described {
                    entities: after.scene.entities,
                    bodies: after.scene.bodies,
                    ..world.scene
                },
                ..world
            })
            &&& world.meshes.len() <= after.meshes.len() <= world.meshes.len() + count
            &&& room_left(after.scene.entities, MAX_ENTITIES as nat) + count == room_left(
                world.scene.entities,
                MAX_ENTITIES as nat,
            )
            &&& room_left(after.scene.bodies, MAX_BODIES as nat) + count == room_left(
                world.scene.bodies,
                MAX_BODIES as nat,
            )
            &&& forall|k: int|
                0 <= k < count ==> is_baked(
                    after,
                    name,
                    groups[k].material,
                    (#[trigger] made[k])->Entity_0,
                    under[k],
                )
            &&& forall|id: Handle|
                stale(world.scene.entities, id) ==> #[trigger] stale(after.scene.entities, id)
        }),
    decreases count,
{
    if count == 0 {
        assert(entities_in(Seq::empty()) =~= Seq::empty());
        Seq::empty()
    } else {
        let less = (count - 1) as nat;
        let fewer = materials_are_laid(world, name, groups, less);
        let (so_far, before) = laid(world, name, groups, less);
        let material = groups[count - 1].material;
        let (after, made) = laid(world, name, groups, count);
        assert((after, made) == laid_one(so_far, before, name, material));
        let limit = MAX_ENTITIES as nat;
        let most = MAX_BODIES as nat;
        let registered = mesh_name(so_far.materials, name, material);
        assert(registered =~= faces_name(so_far.materials, name, material));
        numbered_is_first(so_far.meshes, registered, 1);
        inserted_is_found(so_far.meshes, known(registered, true));
        let mesh = insert_number(so_far.meshes, registered) as u32;
        let entity = next_handle(so_far.scene.entities, limit);
        let body = next_handle(so_far.scene.bodies, most);
        let plain = crate::bake::plain_name(so_far.materials, material);
        let thing = called(plain, Entity { mesh, material, ..plain_entity(identity()) });
        let solid = called(plain, crate::bake::baked_body(entity, mesh));
        spawning_takes_room(so_far.scene.entities, limit, thing);
        spawning_takes_room(so_far.scene.bodies, most, solid);
        spawning_grows(
            world.scene.entities,
            so_far.scene.entities,
            limit,
            entities_in(before),
            thing,
        );
        spawning_grows(world.scene.bodies, so_far.scene.bodies, most, fewer, solid);
        assert(entities_in(made) =~= entities_in(before).push(entity));
        let under = fewer.push(body);
        assert forall|k: int| 0 <= k < count implies is_baked(
            after,
            name,
            groups[k].material,
            (#[trigger] made[k])->Entity_0,
            under[k],
        ) by {
            if k < less {
                assert(made[k] == before[k]);
                assert(under[k] == fewer[k]);
                assert(entities_in(before)[k] == before[k]->Entity_0);
                laying_keeps_what_is_laid(
                    so_far,
                    before,
                    name,
                    material,
                    groups[k].material,
                    before[k]->Entity_0,
                    fewer[k],
                );
            } else {
                assert(after.meshes[mesh as int] == known(registered, true));
            }
        }
        assert forall|k: int| 0 <= k < count implies (#[trigger] made[k]) is Entity by {
            if k < less {
                assert(made[k] == before[k]);
            }
        }
        assert forall|id: Handle| stale(world.scene.entities, id) implies #[trigger] stale(
            after.scene.entities,
            id,
        ) by {
            assert(stale(so_far.scene.entities, id));
            crate::table::stale_stays_stale(
                so_far.scene.entities,
                limit,
                id,
                thing,
                Handle::nothing(),
            );
        }
        under
    }
}

/// A bake leaves, for every material there is an open face of, one entity that
/// draws that material's mesh in that material and one still body that drives
/// it and collides as that mesh, each standing unmoved; the blocks are gone; and
/// whatever else stood once the blocks went goes on standing as it stood. The
/// entities are what is selected, in the order of the materials.
pub proof fn a_bake_leaves_one_thing_for_each_material(
    world: Worldly,
    picks: Seq<Pick>,
    sides: Seq<Side>,
    name: Seq<char>,
) -> (under: Seq<BodyId>)
    requires
        sound(world.scene.entities, MAX_ENTITIES as nat),
        sound(world.scene.bodies, MAX_BODIES as nat),
        sound(world.scene.joints, MAX_JOINTS as nat),
        blocks_of(world.scene, picks).len() > 0,
        ({
            let rest = deleted_from(world.scene, as_picks(blocks_of(world.scene, picks)));
            let many = groups_of(open_sides(sides)).len();
            &&& room_left(rest.entities, MAX_ENTITIES as nat) >= many
            &&& room_left(rest.bodies, MAX_BODIES as nat) >= many
            &&& 0 < world.meshes.len()
            &&& world.meshes.len() + many < u32::MAX
        }),
    ensures
        ({
            let blocks = blocks_of(world.scene, picks);
            let rest = deleted_from(world.scene, as_picks(blocks));
            let groups = groups_of(open_sides(sides));
            let (after, made) = baked_world(world, picks, sides, name);
            &&& made.len() == groups.len()
            &&& under.len() == groups.len()
            &&& forall|k: int| 0 <= k < made.len() ==> (#[trigger] made[k]) is Entity
            &&& grown(rest.entities, after.scene.entities, entities_in(made))
            &&& grown(rest.bodies, after.scene.bodies, under)
            &&& after.scene.joints == rest.joints
            &&& after.materials == world.materials
            &&& forall|k: int|
                0 <= k < made.len() ==> is_baked(
                    after,
                    name,
                    groups[k].material,
                    (#[trigger] made[k])->Entity_0,
                    under[k],
                )
            &&& forall|k: int, body: BodyId|
                0 <= k < made.len() && #[trigger] lives(after.scene.bodies, body) && !lives(
                    rest.bodies,
                    body,
                ) && thing_at(after.scene.bodies, body).facts.entity == (
                #[trigger] made[k])->Entity_0 ==> body == under[k]
            &&& forall|i: int|
                0 <= i < blocks.len() ==> !lives(after.scene.entities, #[trigger] blocks[i])
        }),
{
    let scene = world.scene;
    let blocks = blocks_of(scene, picks);
    let gone = as_picks(blocks);
    let rest = deleted_from(scene, gone);
    let groups = groups_of(open_sides(sides));
    without_keeps_the_rest(
        scene.entities,
        MAX_ENTITIES as nat,
        |id: EntityId| entity_taken(scene.entities, gone, id),
    );
    without_keeps_the_rest(
        scene.bodies,
        MAX_BODIES as nat,
        |id: BodyId| body_taken(scene, gone, id),
    );
    let cleared = Worldly { scene: rest, ..world };
    let under = materials_are_laid(cleared, name, groups, groups.len());
    let (after, made) = baked_world(world, picks, sides, name);
    crate::bake::blocks_live(scene, picks);
    assert forall|i: int| 0 <= i < blocks.len() implies !lives(
        after.scene.entities,
        #[trigger] blocks[i],
    ) by {
        let id = blocks[i];
        assert(gone[i] == Pick::Entity(id));
        assert(entity_taken(scene.entities, gone, id));
        assert(scene.entities[id.slot as int].generation < u32::MAX);
        assert(stale(rest.entities, id));
        assert(stale(after.scene.entities, id));
    }
    assert forall|k: int, body: BodyId|
        0 <= k < made.len() && #[trigger] lives(after.scene.bodies, body) && !lives(
            rest.bodies,
            body,
        ) && thing_at(after.scene.bodies, body).facts.entity == (
        #[trigger] made[k])->Entity_0 implies body == under[k] by {
        assert(under.contains(body));
        let j = choose|j: int| 0 <= j < under.len() && under[j] == body;
        assert(is_baked(after, name, groups[j].material, made[j]->Entity_0, under[j]));
        assert(entities_in(made)[j] == entities_in(made)[k]);
        if j < k {
            assert(entities_in(made)[j] != entities_in(made)[k]);
        } else if k < j {
            assert(entities_in(made)[k] != entities_in(made)[j]);
        }
    }
    under
}

/// Whether an entity is picked, or hangs off one that is, at any distance.
pub open spec fn goes(entities: Entities, picks: Seq<Pick>, id: EntityId) -> bool {
    ||| picks.contains(Pick::Entity(id))
    ||| exists|top: EntityId|
        picks.contains(Pick::Entity(top)) && lives(entities, top) && #[trigger] below(
            entities,
            id,
            top,
        )
}

/// What is taken is what is picked and what hangs off it.
proof fn taken_goes(entities: Entities, picks: Seq<Pick>, id: EntityId)
    requires
        sound(entities, MAX_ENTITIES as nat),
        rooted(entities),
        lives(entities, id),
    ensures
        entity_taken(entities, picks, id) == goes(entities, picks, id),
{
    if entity_taken(entities, picks, id) {
        let i = choose|i: int|
            0 <= i < picks.len() && crate::edit::reaches(entities, #[trigger] picks[i], id);
        let top = picks[i]->Entity_0;
        assert(picks.contains(picks[i]));
        the_walk_finds_it(entities, id, top);
    }
    if goes(entities, picks, id) {
        if picks.contains(Pick::Entity(id)) {
            let i = choose|i: int| 0 <= i < picks.len() && picks[i] == Pick::Entity(id);
            assert(crate::edit::reaches(entities, picks[i], id));
        } else {
            let top = choose|top: EntityId|
                picks.contains(Pick::Entity(top)) && lives(entities, top) && #[trigger] below(
                    entities,
                    id,
                    top,
                );
            let i = choose|i: int| 0 <= i < picks.len() && picks[i] == Pick::Entity(top);
            the_walk_finds_it(entities, id, top);
            assert(crate::edit::reaches(entities, picks[i], id));
        }
    }
}

/// Whether a body goes: it is picked, or drives an entity that goes.
pub open spec fn body_goes(scene: Described, picks: Seq<Pick>, id: BodyId) -> bool {
    let entity = thing_at(scene.bodies, id).facts.entity;
    picks.contains(Pick::Body(id)) || (lives(scene.entities, entity) && goes(
        scene.entities,
        picks,
        entity,
    ))
}

/// Deleting takes exactly what is picked, what hangs off it, the bodies driving
/// any of that and the joints holding any of those; whatever else stands, stands
/// as it stood.
pub proof fn a_deletion_takes_exactly_what_goes(scene: Described, picks: Seq<Pick>)
    requires
        sound(scene.entities, MAX_ENTITIES as nat),
        sound(scene.bodies, MAX_BODIES as nat),
        sound(scene.joints, MAX_JOINTS as nat),
        rooted(scene.entities),
    ensures
        ({
            let after = deleted_from(scene, picks);
            &&& forall|id: EntityId| #[trigger]
                lives(after.entities, id) == (lives(scene.entities, id) && !goes(
                    scene.entities,
                    picks,
                    id,
                ))
            &&& forall|id: BodyId| #[trigger]
                lives(after.bodies, id) == (lives(scene.bodies, id) && !body_goes(
                    scene,
                    picks,
                    id,
                ))
            &&& forall|id: JointId| #[trigger]
                lives(after.joints, id) == (lives(scene.joints, id) && !picks.contains(
                    Pick::Joint(id),
                ) && {
                    let joint = thing_at(scene.joints, id).facts;
                    &&& !(lives(scene.bodies, joint.first) && body_goes(scene, picks, joint.first))
                    &&& !(lives(scene.bodies, joint.second) && body_goes(
                        scene,
                        picks,
                        joint.second,
                    ))
                })
            &&& forall|id: EntityId|
                lives(after.entities, id) ==> #[trigger] thing_at(after.entities, id) == thing_at(
                    scene.entities,
                    id,
                )
            &&& forall|id: BodyId|
                lives(after.bodies, id) ==> #[trigger] thing_at(after.bodies, id) == thing_at(
                    scene.bodies,
                    id,
                )
            &&& forall|id: JointId|
                lives(after.joints, id) ==> #[trigger] thing_at(after.joints, id) == thing_at(
                    scene.joints,
                    id,
                )
            &&& after.stage == scene.stage && after.sky == scene.sky && after.time == scene.time
                && after.steps == scene.steps
        }),
{
    let after = deleted_from(scene, picks);
    let entity = |id: EntityId| entity_taken(scene.entities, picks, id);
    let body = |id: BodyId| body_taken(scene, picks, id);
    let joint = |id: JointId| joint_taken(scene, picks, id);
    without_keeps_the_rest(scene.entities, MAX_ENTITIES as nat, entity);
    without_keeps_the_rest(scene.bodies, MAX_BODIES as nat, body);
    without_keeps_the_rest(scene.joints, MAX_JOINTS as nat, joint);
    assert forall|id: EntityId| #[trigger] lives(after.entities, id) == (lives(scene.entities, id)
        && !goes(scene.entities, picks, id)) by {
        if lives(scene.entities, id) {
            taken_goes(scene.entities, picks, id);
        }
        assert(entity(id) == entity_taken(scene.entities, picks, id));
    }
    assert forall|id: BodyId| lives(scene.bodies, id) implies #[trigger] body_taken(
        scene,
        picks,
        id,
    ) == body_goes(scene, picks, id) by {
        let driven = thing_at(scene.bodies, id).facts.entity;
        if lives(scene.entities, driven) {
            taken_goes(scene.entities, picks, driven);
        }
    }
    assert forall|id: BodyId| #[trigger] lives(after.bodies, id) == (lives(scene.bodies, id)
        && !body_goes(scene, picks, id)) by {
        assert(body(id) == body_taken(scene, picks, id));
    }
    assert forall|id: JointId| #[trigger] lives(after.joints, id) == (lives(scene.joints, id)
        && !picks.contains(Pick::Joint(id)) && {
        let held = thing_at(scene.joints, id).facts;
        &&& !(lives(scene.bodies, held.first) && body_goes(scene, picks, held.first))
        &&& !(lives(scene.bodies, held.second) && body_goes(scene, picks, held.second))
    }) by {
        assert(joint(id) == joint_taken(scene, picks, id));
        let held = thing_at(scene.joints, id).facts;
        if lives(scene.bodies, held.first) {
            assert(body_taken(scene, picks, held.first) == body_goes(scene, picks, held.first));
        }
        if lives(scene.bodies, held.second) {
            assert(body_taken(scene, picks, held.second) == body_goes(scene, picks, held.second));
        }
    }
}

/// A bake takes the entities that draw the cube: those picked, and every one of
/// them where nothing is picked.
pub proof fn a_bake_takes_the_cubes(scene: Described, picks: Seq<Pick>, id: EntityId)
    requires
        sound(scene.entities, MAX_ENTITIES as nat),
    ensures
        blocks_of(scene, picks).contains(id) <==> {
            &&& lives(scene.entities, id)
            &&& thing_at(scene.entities, id).facts.mesh == CUBE
            &&& picks.len() == 0 || picks.contains(Pick::Entity(id))
        },
{
    living_resolves(scene.entities);
    if picks.len() == 0 {
        filter_contains(
            living(scene.entities),
            |id: EntityId| crate::bake::is_block(scene, id),
        );
    } else {
        blocks_are_picked(scene, picks, id);
    }
}

/// The blocks among several things picked.
proof fn blocks_are_picked(scene: Described, picks: Seq<Pick>, id: EntityId)
    ensures
        crate::bake::blocks_among(scene, picks).contains(id) <==> crate::bake::is_block(scene, id)
            && picks.contains(Pick::Entity(id)),
    decreases picks.len(),
{
    if picks.len() > 0 {
        let less = picks.drop_last();
        blocks_are_picked(scene, less, id);
        let so_far = crate::bake::blocks_among(scene, less);
        let all = crate::bake::blocks_among(scene, picks);
        if picks.contains(Pick::Entity(id)) {
            let k = choose|k: int| 0 <= k < picks.len() && picks[k] == Pick::Entity(id);
            if k < less.len() {
                assert(less[k] == Pick::Entity(id));
            }
        }
        if less.contains(Pick::Entity(id)) {
            let k = choose|k: int| 0 <= k < less.len() && less[k] == Pick::Entity(id);
            assert(picks[k] == Pick::Entity(id));
        }
        if so_far.contains(id) {
            let k = choose|k: int| 0 <= k < so_far.len() && so_far[k] == id;
            assert(all[k] == id);
        }
        if all.contains(id) {
            let k = choose|k: int| 0 <= k < all.len() && all[k] == id;
            if k < so_far.len() {
                assert(so_far[k] == id);
            } else {
                assert(picks[picks.len() - 1] == Pick::Entity(id));
            }
        }
        if picks.last() == Pick::Entity(id) && crate::bake::is_block(scene, id) {
            assert(all[so_far.len() as int] == id);
        }
    }
}

/// A new world knows the cube, under the number a block draws.
pub proof fn a_block_draws_the_cube()
    ensures
        number_of(crate::world::the_cube_known(), "cube"@) == CUBE,
        crate::world::the_cube_known()[CUBE as int].drawn,
{
    reveal_strlit("cube");
    let all = crate::world::the_cube_known();
    assert(all[1].name == "cube"@);
    numbered_is_first(all, "cube"@, 1);
    match numbered(all, "cube"@, 1) {
        None => {
            assert(all[1].name != "cube"@);
        },
        Some(_) => {},
    }
}

/// Putting an entity with a body under it in the world.
proof fn one_pair_more(scene: Described, name: Seq<char>, facts: Entity, body: Body)
    requires
        sound(scene.entities, MAX_ENTITIES as nat),
        sound(scene.bodies, MAX_BODIES as nat),
        room_left(scene.entities, MAX_ENTITIES as nat) > 0,
        room_left(scene.bodies, MAX_BODIES as nat) > 0,
    ensures
        ({
            let (after, picks) = with_pair(scene, name, facts, body);
            let under = next_handle(scene.bodies, MAX_BODIES as nat);
            &&& picks.len() == 1
            &&& picks[0] is Entity
            &&& grown(scene.entities, after.entities, seq![picks[0]->Entity_0])
            &&& grown(scene.bodies, after.bodies, seq![under])
            &&& thing_at(after.entities, picks[0]->Entity_0) == called(name, facts)
            &&& thing_at(after.bodies, under) == called(
                name,
                Body { entity: picks[0]->Entity_0, ..body },
            )
            &&& after == (Described {
                entities: after.entities,
                bodies: after.bodies,
                ..scene
            })
        }),
{
    let id = next_handle(scene.entities, MAX_ENTITIES as nat);
    let under = next_handle(scene.bodies, MAX_BODIES as nat);
    let thing = called(name, facts);
    let solid = called(name, Body { entity: id, ..body });
    spawning_takes_room(scene.entities, MAX_ENTITIES as nat, thing);
    spawning_takes_room(scene.bodies, MAX_BODIES as nat, solid);
    spawning_grows(scene.entities, scene.entities, MAX_ENTITIES as nat, Seq::empty(), thing);
    spawning_grows(scene.bodies, scene.bodies, MAX_BODIES as nat, Seq::empty(), solid);
    assert(Seq::<Handle>::empty().push(id) =~= seq![id]);
    assert(Seq::<Handle>::empty().push(under) =~= seq![under]);
}

/// Whether a press put one entity in the world, standing somewhere and drawing
/// something, with a still box under it that stands where it stands; selected
/// it; and changed nothing else.
pub open spec fn puts_a_box(
    outcome: Outcome,
    world: Worldly,
    name: Seq<char>,
    standing: Transform,
    material: u32,
    wet: bool,
) -> bool {
    let (then, after, asked) = outcome;
    let entities = after.scene.entities;
    let bodies = after.scene.bodies;
    let under = next_handle(world.scene.bodies, MAX_BODIES as nat);
    &&& asked is None
    &&& then.selection.len() == 1
    &&& then.selection[0].0 is Entity
    &&& ({
        let id = then.selection[0].0->Entity_0;
        let now = thing_at(entities, id);
        let solid = thing_at(bodies, under);
        &&& grown(world.scene.entities, entities, seq![id])
        &&& grown(world.scene.bodies, bodies, seq![under])
        &&& now.facts.mesh == CUBE
        &&& now.facts.material == material
        &&& now.facts.transform == standing
        &&& !now.facts.parent.some()
        &&& now.facts.decal == 0
        &&& stands_new(now, name, now.facts)
        &&& solid.name == name
        &&& solid.facts.entity == id
        &&& solid.facts.transform == standing
        &&& solid.facts.kind == BodyKind::Static
        &&& solid.facts.shape == ShapeKind::Box
        &&& !solid.facts.sensor
        &&& solid.facts.wet == wet
    })
    &&& after == (Worldly {
        scene: Described { entities, bodies, ..world.scene },
        ..world
    })
}

/// Selecting one thing that is alive selects it and nothing else.
proof fn selecting_one(world: Worldly, id: EntityId)
    requires
        lives(world.scene.entities, id),
    ensures
        selected_all(world, seq![Pick::Entity(id)]).len() == 1,
        selected_all(world, seq![Pick::Entity(id)])[0].0 == Pick::Entity(id),
{
    let picks = seq![Pick::Entity(id)];
    assert(picks.drop_last() =~= Seq::empty());
    reveal_with_fuel(selected_all, 2);
}

/// A block is a cube in the default material with a still box under it; a pool
/// is a cube in the material it is asked in, with a still box under it that is
/// full of fluid. Each stands where it was asked, and is what is selected.
pub proof fn blocks_and_pools_are_boxes(
    held: Held,
    world: Worldly,
    standing: Transform,
    material: u32,
)
    requires
        sound(world.scene.entities, MAX_ENTITIES as nat),
        sound(world.scene.bodies, MAX_BODIES as nat),
        room_left(world.scene.entities, MAX_ENTITIES as nat) > 0,
        room_left(world.scene.bodies, MAX_BODIES as nat) > 0,
    ensures
        puts_a_box(
            applied(held, world, Pressed::Block(standing)),
            world,
            "block"@,
            standing,
            0,
            false,
        ),
        puts_a_box(
            applied(held, world, Pressed::Water { standing, material }),
            world,
            "water"@,
            standing,
            material,
            true,
        ),
{
    reveal(on_block);
    reveal(on_water);
    let cube = Entity { mesh: CUBE, ..plain_entity(standing) };
    let pool = Entity { mesh: CUBE, material, ..plain_entity(standing) };
    one_pair_more(world.scene, "block"@, cube, still_box(standing, false));
    one_pair_more(world.scene, "water"@, pool, still_box(standing, true));
    let after = applied(held, world, Pressed::Block(standing)).1;
    let id = next_handle(world.scene.entities, MAX_ENTITIES as nat);
    assert(seq![id][0] == id);
    selecting_one(after, id);
    selecting_one(applied(held, world, Pressed::Water { standing, material }).1, id);
}

/// A decal is an entity that draws nothing and paints its box, standing where it
/// was asked with no body under it, and is what is selected.
pub proof fn a_decal_only_paints(held: Held, world: Worldly, standing: Transform)
    requires
        sound(world.scene.entities, MAX_ENTITIES as nat),
        room_left(world.scene.entities, MAX_ENTITIES as nat) > 0,
    ensures
        ({
            let (then, after, asked) = applied(held, world, Pressed::Decal(standing));
            let entities = after.scene.entities;
            &&& asked is None
            &&& then.selection.len() == 1
            &&& then.selection[0].0 is Entity
            &&& ({
                let id = then.selection[0].0->Entity_0;
                let now = thing_at(entities, id);
                &&& grown(world.scene.entities, entities, seq![id])
                &&& now.facts.decal == 1
                &&& now.facts.mesh == 0
                &&& now.facts.material == 0
                &&& now.facts.transform == standing
                &&& !now.facts.parent.some()
                &&& stands_new(now, "decal"@, now.facts)
            })
            &&& after == (Worldly {
                scene: Described { entities, ..world.scene },
                ..world
            })
        }),
{
    reveal(on_decal);
    one_more(world.scene, "decal"@, Entity { decal: BOX, ..plain_entity(standing) });
    let id = next_handle(world.scene.entities, MAX_ENTITIES as nat);
    assert(seq![id][0] == id);
    selecting_one(applied(held, world, Pressed::Decal(standing)).1, id);
}

/// A duplicate copies exactly the entities picked and those hanging off one that
/// is, as far as there is room; and each copy hangs off the copy of what its
/// original hangs off, or off the same thing where that was not copied.
pub proof fn a_duplicate_copies_exactly_what_is_picked(entities: Entities, picks: Seq<Pick>)
    requires
        sound(entities, MAX_ENTITIES as nat),
        rooted(entities),
        parents_known(entities),
    ensures
        ({
            let sources = crate::copy::entity_sources(entities, picks);
            let (after, made) = crate::copy::entities_duplicated(entities, sources);
            &&& forall|id: EntityId| #[trigger]
                crate::copy::was_copied(made, id) ==> lives(entities, id) && goes(
                    entities,
                    picks,
                    id,
                )
            &&& forall|id: EntityId|
                lives(entities, id) && goes(entities, picks, id)
                    ==> #[trigger] crate::copy::was_copied(made, id) || room_left(
                    crate::copy::entities_copied(entities, sources).0,
                    MAX_ENTITIES as nat,
                ) == 0
            &&& forall|k: int|
                0 <= k < made.len() ==> {
                    let (source, copy) = #[trigger] made[k];
                    crate::copy::stands_for(
                        made,
                        parent_of(entities, source),
                        parent_of(after, copy),
                        parent_of(entities, source),
                    )
                }
        }),
{
    let sources = crate::copy::entity_sources(entities, picks);
    let (after, made) = crate::copy::entities_duplicated(entities, sources);
    crate::copy::everything_taken_is_copied(entities, picks);
    crate::copy::a_duplicate_stands_beside(entities, picks);
    assert forall|id: EntityId| #[trigger] crate::copy::was_copied(made, id) implies lives(
        entities,
        id,
    ) && goes(entities, picks, id) by {
        taken_goes(entities, picks, id);
    }
    assert forall|id: EntityId|
        lives(entities, id) && goes(entities, picks, id) implies #[trigger] crate::copy::was_copied(
        made,
        id,
    ) || room_left(
        crate::copy::entities_copied(entities, sources).0,
        MAX_ENTITIES as nat,
    ) == 0 by {
        taken_goes(entities, picks, id);
    }
    assert forall|k: int| 0 <= k < made.len() implies ({
        let (source, copy) = #[trigger] made[k];
        crate::copy::stands_for(
            made,
            parent_of(entities, source),
            parent_of(after, copy),
            parent_of(entities, source),
        )
    }) by {
        let (source, copy) = made[k];
        crate::copy::became_stands_for(
            made,
            parent_of(entities, source),
            parent_of(entities, source),
        );
    }
}

/// What is landed is selected whole: every entity of it, or every body where it
/// has no entity at all, in the order they came.
pub proof fn what_landed_is_selected(entities: Seq<EntityId>, bodies: Seq<BodyId>)
    ensures
        ({
            let picks = crate::make::landed_picks(entities, bodies);
            &&& entities.len() > 0 ==> picks.len() == entities.len() && forall|i: int|
                0 <= i < picks.len() ==> #[trigger] picks[i] == Pick::Entity(entities[i])
            &&& entities.len() == 0 ==> picks.len() == bodies.len() && forall|i: int|
                0 <= i < picks.len() ==> #[trigger] picks[i] == Pick::Body(bodies[i])
        }),
{
}

} // verus!
