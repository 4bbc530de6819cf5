//! Putting new things in the world: a block, a pool, a decal, and what a row
//! of the asset browser becomes when it is dropped.

use vstd::prelude::*;
use crate::edit::replaced_is_sound;
use crate::select::Pick;
use crate::table::{
    despawned, despawned_is_gone, lives, next_handle, sound, spawned, spawned_is_new, texts,
    thing_at, Handle, Thing,
};
use crate::text::{letters, part};
use crate::tree::{hung, may_hang, set_parent, Entities};
use crate::world::{
    number_of, plain_entity, Body, BodyId, BodyKind, Described, Entity, EntityId, Piece,
    Placement, ShapeKind, Transform, World, Worldly, MAX_BODIES, MAX_ENTITIES,
};

verus! {

/// The number of the built-in cube.
pub const CUBE: u32 = 1;

/// How a decal paints: everything inside its box.
pub const BOX: u32 = 1;

/// Something with a name and nothing in its records.
pub open spec fn called<F>(name: Seq<char>, facts: F) -> Thing<F> {
    Thing { name, notes: Seq::empty(), sheets: Seq::empty(), facts }
}

/// A scene with one more entity in it, and what of it is selected: the
/// entity, or nothing where there is no room.
pub open spec fn with_entity(scene: Described, name: Seq<char>, facts: Entity) -> (
    Described,
    Seq<Pick>,
) {
    let made = next_handle(scene.entities, MAX_ENTITIES as nat);
    (
        Described {
            entities: spawned(scene.entities, MAX_ENTITIES as nat, called(name, facts)),
            ..scene
        },
        if made.some() {
            seq![Pick::Entity(made)]
        } else {
            Seq::empty()
        },
    )
}

/// A scene with one more entity in it and a body driving it, and what of
/// them is selected. Where there is no room for the body the entity goes
/// again.
pub open spec fn with_pair(scene: Described, name: Seq<char>, facts: Entity, body: Body) -> (
    Described,
    Seq<Pick>,
) {
    let made = next_handle(scene.entities, MAX_ENTITIES as nat);
    let entities = spawned(scene.entities, MAX_ENTITIES as nat, called(name, facts));
    let driven = Body { entity: made, ..body };
    if !made.some() {
        (scene, Seq::empty())
    } else if !next_handle(scene.bodies, MAX_BODIES as nat).some() {
        (Described { entities: despawned(entities, made), ..scene }, Seq::empty())
    } else {
        (
            Described {
                entities,
                bodies: spawned(scene.bodies, MAX_BODIES as nat, called(name, driven)),
                ..scene
            },
            seq![Pick::Entity(made)],
        )
    }
}

/// Puts an entity in the world.
fn put_entity(world: &mut World, name: &str, facts: Entity) -> (result: Vec<Pick>)
    requires
        old(world).wf(),
    ensures
        final(world).wf(),
        ({
            let (scene, picks) = with_entity(old(world).view().scene, name@, facts);
            &&& final(world).view() == (Worldly { scene, ..old(world).view() })
            &&& result@ == picks
        }),
{
    let notes: Vec<String> = Vec::new();
    assert(texts(notes@) =~= Seq::empty());
    let made: EntityId = world.scene.entities.spawn(name, notes, facts);
    let mut result: Vec<Pick> = Vec::new();
    if made.is_some() {
        result.push(Pick::Entity(made));
    }
    assert(result@ =~= if made.some() {
        seq![Pick::Entity(made)]
    } else {
        Seq::empty()
    });
    result
}

/// Puts an entity in the world and a body driving it, or neither.
fn put_pair(world: &mut World, name: &str, facts: Entity, body: Body) -> (result: Vec<Pick>)
    requires
        old(world).wf(),
    ensures
        final(world).wf(),
        ({
            let (scene, picks) = with_pair(old(world).view().scene, name@, facts, body);
            &&& final(world).view() == (Worldly { scene, ..old(world).view() })
            &&& result@ == picks
        }),
{
    let ghost was = world.view().scene;
    let notes: Vec<String> = Vec::new();
    assert(texts(notes@) =~= Seq::empty());
    let mut result: Vec<Pick> = Vec::new();
    let made: EntityId = world.scene.entities.spawn(name, notes, facts);
    proof {
        spawned_is_new(was.entities, MAX_ENTITIES as nat, called(name@, facts), made);
    }
    if !made.is_some() {
        assert(result@ =~= Seq::empty());
        return result;
    }
    let none: Vec<String> = Vec::new();
    assert(texts(none@) =~= Seq::empty());
    let driven: Body = Body { entity: made, ..body };
    let under: BodyId = world.scene.bodies.spawn(name, none, driven);
    proof {
        spawned_is_new(was.bodies, MAX_BODIES as nat, called(name@, driven), under);
    }
    if !under.is_some() {
        world.scene.entities.despawn(made);
        assert(result@ =~= Seq::empty());
        return result;
    }
    result.push(Pick::Entity(made));
    assert(result@ =~= seq![Pick::Entity(made)]);
    result
}

/// A static box standing somewhere, full of fluid or not.
pub open spec fn still_box(standing: Transform, wet: bool) -> Body {
    Body {
        entity: Handle::nothing(),
        transform: standing,
        kind: BodyKind::Static,
        shape: ShapeKind::Box,
        collider: 0,
        sensor: false,
        wet,
    }
}

/// Puts a block in the world: a cube standing somewhere, with a static box
/// that is the block driving it. What of it is selected; nothing where there
/// is no room for both halves.
pub fn block(world: &mut World, standing: Transform) -> (result: Vec<Pick>)
    requires
        old(world).wf(),
    ensures
        final(world).wf(),
        ({
            let (scene, picks) = with_pair(
                old(world).view().scene,
                "block"@,
                Entity { mesh: CUBE, ..plain_entity(standing) },
                still_box(standing, false),
            );
            &&& final(world).view() == (Worldly { scene, ..old(world).view() })
            &&& result@ == picks
        }),
{
    let facts: Entity = Entity { mesh: CUBE, ..Entity::plain(standing) };
    let body: Body = Body {
        entity: Handle::none(),
        transform: standing,
        kind: BodyKind::Static,
        shape: ShapeKind::Box,
        collider: 0,
        sensor: false,
        wet: false,
    };
    put_pair(world, "block", facts, body)
}

/// Puts a body of water in the world, and gives it something to look at: one
/// entity and one body, whose two boxes are the same box.
pub fn water(world: &mut World, standing: Transform, material: u32) -> (result: Vec<Pick>)
    requires
        old(world).wf(),
    ensures
        final(world).wf(),
        ({
            let (scene, picks) = with_pair(
                old(world).view().scene,
                "water"@,
                Entity { mesh: CUBE, material, ..plain_entity(standing) },
                still_box(standing, true),
            );
            &&& final(world).view() == (Worldly { scene, ..old(world).view() })
            &&& result@ == picks
        }),
{
    let facts: Entity = Entity { mesh: CUBE, material, ..Entity::plain(standing) };
    let body: Body = Body {
        entity: Handle::none(),
        transform: standing,
        kind: BodyKind::Static,
        shape: ShapeKind::Box,
        collider: 0,
        sensor: false,
        wet: true,
    };
    put_pair(world, "water", facts, body)
}

/// Puts a decal in the world: an entity that draws nothing of its own and
/// paints what is around it.
pub fn decal(world: &mut World, standing: Transform) -> (result: Vec<Pick>)
    requires
        old(world).wf(),
    ensures
        final(world).wf(),
        ({
            let (scene, picks) = with_entity(
                old(world).view().scene,
                "decal"@,
                Entity { decal: BOX, ..plain_entity(standing) },
            );
            &&& final(world).view() == (Worldly { scene, ..old(world).view() })
            &&& result@ == picks
        }),
{
    put_entity(world, "decal", Entity { decal: BOX, ..Entity::plain(standing) })
}

/// A thing of two halves is put in the world whole or not at all: where
/// anything is selected the body drives the entity and both stand in the same
/// place, and where nothing is, no more is alive than before.
pub proof fn both_halves_or_neither(scene: Described, name: Seq<char>, facts: Entity, body: Body)
    requires
        sound(scene.entities, MAX_ENTITIES as nat),
        sound(scene.bodies, MAX_BODIES as nat),
        facts.transform == body.transform,
    ensures
        ({
            let (after, picks) = with_pair(scene, name, facts, body);
            let entity = next_handle(scene.entities, MAX_ENTITIES as nat);
            let under = next_handle(scene.bodies, MAX_BODIES as nat);
            if picks.len() > 0 {
                &&& picks == seq![Pick::Entity(entity)]
                &&& lives(after.entities, entity)
                &&& lives(after.bodies, under)
                &&& thing_at(after.bodies, under).facts.entity == entity
                &&& thing_at(after.bodies, under).facts.transform == thing_at(
                    after.entities,
                    entity,
                ).facts.transform
            } else {
                &&& after.bodies == scene.bodies
                &&& forall|id: EntityId| #[trigger]
                    lives(after.entities, id) == lives(scene.entities, id)
            }
        }),
{
    let limit = MAX_ENTITIES as nat;
    let entity = next_handle(scene.entities, limit);
    let thing = called(name, facts);
    let mid = spawned(scene.entities, limit, thing);
    spawned_is_new(scene.entities, limit, thing, entity);
    spawned_is_new(
        scene.bodies,
        MAX_BODIES as nat,
        called(name, Body { entity, ..body }),
        next_handle(scene.bodies, MAX_BODIES as nat),
    );
    let (after, picks) = with_pair(scene, name, facts, body);
    if picks.len() == 0 {
        assert forall|id: EntityId| #[trigger] lives(after.entities, id) == lives(
            scene.entities,
            id,
        ) by {
            if entity.some() {
                spawned_is_new(scene.entities, limit, thing, id);
                despawned_is_gone(mid, limit, entity, id);
            }
        }
    }
}

/// The last part of an asset name, which is what a thing made from it is
/// called.
pub open spec fn stem_of(name: Seq<char>) -> Seq<char>
    decreases name.len(),
{
    if name.len() == 0 || name.last() == '/' {
        Seq::empty()
    } else {
        stem_of(name.drop_last()).push(name.last())
    }
}

/// The last part of an asset name.
pub fn stem(name: &str) -> (result: String)
    ensures
        result@ == stem_of(name@),
{
    let all: Vec<char> = letters(name);
    let mut from: usize = all.len();
    assert(all@.take(from as int) =~= all@);
    assert(all@.skip(from as int) =~= Seq::empty());
    assert(stem_of(name@) + Seq::<char>::empty() =~= stem_of(name@));
    while from > 0 && all[from - 1] != '/'
        invariant
            from <= all@.len(),
            all@ == name@,
            stem_of(name@) == stem_of(all@.take(from as int)) + all@.skip(from as int),
        decreases from,
    {
        proof {
            let head = all@.take(from as int);
            assert(head.last() == all@[from as int - 1]);
            assert(head.drop_last() =~= all@.take(from as int - 1));
            assert(stem_of(head) + all@.skip(from as int) =~= stem_of(head.drop_last())
                + all@.skip(from as int - 1));
        }
        from = from - 1;
    }
    let last: String = part(&all, from, all.len());
    proof {
        let head = all@.take(from as int);
        if from > 0 {
            assert(head.last() == all@[from as int - 1]);
        }
        assert(stem_of(head) =~= Seq::empty());
        assert(last@ =~= stem_of(name@));
    }
    last
}

/// The last part of a name has no slash in it, and is what the name ends in.
pub proof fn stem_is_the_last_part(name: Seq<char>)
    ensures
        !stem_of(name).contains('/'),
        stem_of(name).len() <= name.len(),
        name.skip(name.len() - stem_of(name).len()) == stem_of(name),
        stem_of(name).len() < name.len() ==> name[name.len() - stem_of(name).len() - 1] == '/',
    decreases name.len(),
{
    if name.len() == 0 || name.last() == '/' {
        assert(name.skip(name.len() as int) =~= Seq::empty());
    } else {
        let less = name.drop_last();
        stem_is_the_last_part(less);
        let stem = stem_of(name);
        assert(!stem.contains('/')) by {
            if stem.contains('/') {
                let k = choose|k: int| 0 <= k < stem.len() && stem[k] == '/';
                if k < stem_of(less).len() {
                    assert(stem_of(less)[k] == '/');
                }
            }
        }
        assert(name.skip(name.len() - stem.len()) =~= stem) by {
            assert forall|i: int| 0 <= i < stem.len() implies name.skip(name.len() - stem.len())[i]
                == stem[i] by {
                if i < stem_of(less).len() {
                    assert(less.skip(less.len() - stem_of(less).len())[i] == stem_of(less)[i]);
                }
            }
        }
    }
}

/// Drops a mesh into the world: an entity drawing it in the default
/// material, called after it. A mesh nobody registered makes nothing.
pub fn drop_mesh(world: &mut World, name: &str, standing: Transform) -> (result: Vec<Pick>)
    requires
        old(world).wf(),
    ensures
        final(world).wf(),
        ({
            let mesh = number_of(old(world).view().meshes, name@);
            let (scene, picks) = with_entity(
                old(world).view().scene,
                stem_of(name@),
                Entity { mesh: mesh as u32, ..plain_entity(standing) },
            );
            if mesh == 0 {
                final(world).view() == old(world).view() && result@ == Seq::<Pick>::empty()
            } else {
                final(world).view() == (Worldly { scene, ..old(world).view() }) && result@ == picks
            }
        }),
{
    let mesh: u32 = world.meshes.find(name);
    if mesh == 0 {
        let none: Vec<Pick> = Vec::new();
        return none;
    }
    let called: String = stem(name);
    put_entity(world, called.as_str(), Entity { mesh, ..Entity::plain(standing) })
}

/// Entities with a child for each piece hanging off one of them. A piece
/// there is no room for is left out.
pub open spec fn with_pieces(entities: Entities, parent: EntityId, pieces: Seq<Piece>) -> Entities
    decreases pieces.len(),
{
    if pieces.len() == 0 {
        entities
    } else {
        let so_far = with_pieces(entities, parent, pieces.drop_last());
        let piece = pieces.last();
        let child = next_handle(so_far, MAX_ENTITIES as nat);
        let facts = Entity {
            mesh: piece.mesh,
            material: piece.material,
            ..plain_entity(piece.transform)
        };
        let more = spawned(so_far, MAX_ENTITIES as nat, called(piece.name, facts));
        if !child.some() {
            so_far
        } else if may_hang(more, child, parent) {
            hung(more, child, parent)
        } else {
            more
        }
    }
}

/// A scene with a model in it: an entity called after it, and a child for
/// each piece.
pub open spec fn with_model(
    scene: Described,
    name: Seq<char>,
    standing: Transform,
    pieces: Seq<Piece>,
) -> (Described, Seq<Pick>) {
    let (top, picks) = with_entity(scene, stem_of(name), plain_entity(standing));
    if picks.len() == 0 {
        (scene, picks)
    } else {
        (
            Described {
                entities: with_pieces(
                    top.entities,
                    next_handle(scene.entities, MAX_ENTITIES as nat),
                    pieces,
                ),
                ..top
            },
            picks,
        )
    }
}

/// Drops a model into the world: an entity called after it, with a child for
/// each piece hanging off it, each drawing its mesh in its material where the
/// model puts it. What is selected is the entity. A name no model has makes
/// nothing.
pub fn drop_model(world: &mut World, name: &str, standing: Transform) -> (result: Vec<Pick>)
    requires
        old(world).wf(),
    ensures
        final(world).wf(),
        ({
            let model = number_of(old(world).view().models, name@);
            let (scene, picks) = with_model(
                old(world).view().scene,
                name@,
                standing,
                old(world).view().pieces[model as int],
            );
            if model == 0 {
                final(world).view() == old(world).view() && result@ == Seq::<Pick>::empty()
            } else {
                final(world).view() == (Worldly { scene, ..old(world).view() }) && result@ == picks
            }
        }),
{
    let model: u32 = world.models.find(name);
    if model == 0 {
        let none: Vec<Pick> = Vec::new();
        return none;
    }
    let ghost was = world.view();
    let ghost pieces = was.pieces[model as int];
    let called_after: String = stem(name);
    let ghost made = next_handle(was.scene.entities, MAX_ENTITIES as nat);
    let result: Vec<Pick> = put_entity(world, called_after.as_str(), Entity::plain(standing));
    if result.len() == 0 {
        proof {
            spawned_is_new(
                was.scene.entities,
                MAX_ENTITIES as nat,
                called(stem_of(name@), plain_entity(standing)),
                made,
            );
        }
        return result;
    }
    let parent: EntityId = match result[0] {
        Pick::Entity(id) => id,
        _ => Handle::none(),
    };
    assert(parent == made);
    let ghost top = world.view();
    let at: usize = model as usize;
    let mut i: usize = 0;
    assert(world.view().pieces == was.pieces);
    assert(pieces.len() == world.pieces@[at as int]@.len());
    assert(pieces.take(0) =~= Seq::empty());
    while i < world.pieces[at].len()
        invariant
            world.wf(),
            at < world.pieces@.len(),
            at == model,
            i <= pieces.len(),
            pieces == world.view().pieces[at as int],
            pieces.len() == world.pieces@[at as int]@.len(),
            world.view() == (Worldly {
                scene: Described {
                    entities: with_pieces(top.scene.entities, parent, pieces.take(i as int)),
                    ..top.scene
                },
                ..top
            }),
        decreases pieces.len() - i,
    {
        let ghost so_far = world.view();
        let piece: &Placement = &world.pieces[at][i];
        proof {
            assert(pieces.take(i as int + 1).drop_last() =~= pieces.take(i as int));
            assert(pieces.take(i as int + 1).last() == pieces[i as int]);
            assert(pieces[i as int] == piece.view());
        }
        let label: String = piece.name.clone();
        let facts: Entity = Entity {
            mesh: piece.mesh,
            material: piece.material,
            ..Entity::plain(piece.transform)
        };
        let notes: Vec<String> = Vec::new();
        assert(texts(notes@) =~= Seq::empty());
        let child: EntityId = world.scene.entities.spawn(label.as_str(), notes, facts);
        proof {
            spawned_is_new(
                so_far.scene.entities,
                MAX_ENTITIES as nat,
                called(label@, facts),
                child,
            );
        }
        if child.is_some() {
            let ghost more = world.view().scene.entities;
            set_parent(&mut world.scene.entities, child, parent);
            proof {
                replaced_is_sound(
                    more,
                    MAX_ENTITIES as nat,
                    child,
                    Thing {
                        facts: Entity { parent, ..thing_at(more, child).facts },
                        ..thing_at(more, child)
                    },
                );
            }
        }
        i = i + 1;
    }
    assert(pieces.take(i as int) =~= pieces);
    result
}

/// What is selected of a scene laid down in the world: its entities, or its
/// bodies where it has no entity at all.
pub open spec fn landed_picks(entities: Seq<EntityId>, bodies: Seq<BodyId>) -> Seq<Pick> {
    if entities.len() > 0 {
        Seq::new(entities.len(), |i: int| Pick::Entity(entities[i]))
    } else {
        Seq::new(bodies.len(), |i: int| Pick::Body(bodies[i]))
    }
}

/// What is selected of a scene laid down in the world.
pub fn landed(entities: &Vec<EntityId>, bodies: &Vec<BodyId>) -> (result: Vec<Pick>)
    ensures
        result@ == landed_picks(entities@, bodies@),
{
    let mut found: Vec<Pick> = Vec::new();
    let mut i: usize = 0;
    while i < entities.len()
        invariant
            i <= entities@.len(),
            found@ == Seq::new(i as nat, |k: int| Pick::Entity(entities@[k])),
        decreases entities@.len() - i,
    {
        found.push(Pick::Entity(entities[i]));
        assert(found@ =~= Seq::new((i + 1) as nat, |k: int| Pick::Entity(entities@[k])));
        i = i + 1;
    }
    if entities.len() > 0 {
        assert(found@ =~= landed_picks(entities@, bodies@));
        return found;
    }
    let mut k: usize = 0;
    assert(found@ =~= Seq::empty());
    while k < bodies.len()
        invariant
            k <= bodies@.len(),
            found@ == Seq::new(k as nat, |j: int| Pick::Body(bodies@[j])),
        decreases bodies@.len() - k,
    {
        found.push(Pick::Body(bodies[k]));
        assert(found@ =~= Seq::new((k + 1) as nat, |j: int| Pick::Body(bodies@[j])));
        k = k + 1;
    }
    assert(found@ =~= landed_picks(entities@, bodies@));
    found
}

/// The last part of a name is what stands behind its last slash.
pub proof fn the_last_part_is_the_stem(folder: Seq<char>, last: Seq<char>)
    requires
        !last.contains('/'),
    ensures
        stem_of(folder + seq!['/'] + last) == last,
{
    let name = folder + seq!['/'] + last;
    stem_is_the_last_part(name);
    let stem = stem_of(name);
    let at = folder.len() as int;
    assert(name[at] == '/');
    if stem.len() > last.len() {
        let k = stem.len() - last.len() - 1;
        assert(name.skip(name.len() - stem.len())[k] == name[at]);
        assert(stem.contains(stem[k]));
    } else if stem.len() < last.len() {
        let k = last.len() - stem.len() - 1;
        assert(name[name.len() - stem.len() - 1] == '/');
        assert(last[k] == '/');
        assert(last.contains(last[k]));
    }
    assert(name.skip(name.len() - stem.len()) =~= last);
}

} // verus!
