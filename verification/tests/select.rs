use colby_editor::catalog::Kind;
use colby_editor::change::Change;
use colby_editor::copy::{became, duplicate};
use colby_editor::edit::{
    branches, delete, descendants, driver, drives, hang, local, place, rename, Deleted,
};
use colby_editor::label::{body_label, entity_label, joint_label};
use colby_editor::make::{block, decal, drop_mesh, drop_model, landed, stem, water, BOX, CUBE};
use colby_editor::panels::Panels;
use colby_editor::section::{LAMP, PAINT, RECORDS};
use colby_editor::select::{again, Pick, Selection};
use colby_editor::table::Handle;
use colby_editor::tree::{hangs_off, parent, set_parent, shown};
use colby_editor::value::Value;
use colby_editor::world::{
    Body, BodyId, BodyKind, Entity, EntityId, Joint, JointId, JointKind, Light, LightKind,
    Placement, ShapeKind, Transform, Triple, World,
};

/// Three fractions, by their bits.
fn triple(x: f32, y: f32, z: f32) -> Triple {
    Triple { x: x.to_bits(), y: y.to_bits(), z: z.to_bits() }
}

/// Standing somewhere, unturned and as big as it is.
fn at(x: f32, y: f32, z: f32) -> Transform {
    Transform::at(triple(x, y, z))
}

/// A thing standing somewhere, with a name.
fn spawn(world: &mut World, name: &str, standing: Transform) -> EntityId {
    world.scene.entities.spawn(name, Vec::new(), Entity::plain(standing))
}

/// A body of a kind, driving something or nothing.
fn body(kind: BodyKind, shape: ShapeKind, standing: Transform, entity: EntityId) -> Body {
    Body {
        entity,
        transform: standing,
        kind,
        shape,
        collider: 0,
        sensor: false,
        wet: false,
    }
}

/// A world with a named entity, the body under it, and a joint.
fn peopled() -> (World, EntityId, BodyId, JointId) {
    let mut world = World::new();
    let entity = spawn(&mut world, "crate", at(0.0, 1.0, 0.0));
    let under = world.scene.bodies.spawn(
        "crate body",
        Vec::new(),
        body(BodyKind::Dynamic, ShapeKind::Sphere, at(0.0, 1.0, 0.0), entity),
    );
    let joint = world.scene.joints.spawn(
        "rope",
        Vec::new(),
        Joint { kind: JointKind::Rope, first: under, second: Handle::none() },
    );

    (world, entity, under, joint)
}

/// Where an entity is in its own terms.
fn stands(world: &World, id: EntityId) -> Option<Triple> {
    world.scene.entities.get(id).map(|it| it.transform.position)
}

/// Where a body is.
fn lies(world: &World, id: BodyId) -> Option<Triple> {
    world.scene.bodies.get(id).map(|it| it.transform.position)
}

#[test]
fn a_pool_is_one_body_and_one_entity_whose_two_boxes_are_the_same_box() {
    let mut world = World::new();
    let surface = world.materials.insert("water", false);
    let made = water(&mut world, at(3.0, -1.0, 0.0), surface);

    assert_eq!(made.len(), 1, "one thing is selected, and it is the entity");

    let Some(Pick::Entity(entity)) = made.first().copied() else {
        panic!("a pool is picked by its entity");
    };
    let under = driver(&world.scene.bodies, entity).expect("and there is a body under it");
    let held = world.scene.bodies.get(under).expect("alive");

    assert!(held.wet);
    assert_eq!(held.entity, entity, "the body drives the entity");
    assert_eq!(held.shape, ShapeKind::Box, "and it is a box");
    assert_eq!(held.transform.position, triple(3.0, -1.0, 0.0), "where it was asked for");

    let look = world.scene.entities.get(entity).expect("the entity draws something");

    assert_eq!(look.transform, held.transform, "which is what makes the two agree");
    assert_eq!(look.mesh, CUBE, "a volume rather than a plane at the top of one");
    assert_eq!(look.material, surface, "in the one built-in material that is not solid");
}

#[test]
fn a_decal_is_a_box_turned_to_throw_straight_down_and_nothing_else() {
    let mut world = World::new();
    let standing = at(3.0, -1.0, 0.0);
    let Some(Pick::Entity(entity)) = decal(&mut world, standing).first().copied() else {
        panic!("a decal is picked by its entity");
    };
    let held = world.scene.entities.get(entity).expect("it stands somewhere");

    assert_eq!(held.decal, BOX, "it paints");
    assert_eq!(held.transform, standing, "from where it was asked for");
    assert_eq!(held.mesh, 0, "with nothing drawn for it but what it paints");
    assert_eq!(world.scene.bodies.len(), 0, "and no body");
}

#[test]
fn a_pool_can_be_resized_by_the_one_number_that_moves_both_halves() {
    let mut world = World::new();
    let Some(Pick::Entity(entity)) = water(&mut world, at(0.0, 0.0, 0.0), 0).first().copied()
    else {
        panic!("a pool is picked by its entity");
    };
    let under = driver(&world.scene.bodies, entity).expect("a body is under it");
    let mut resized = at(0.0, 0.0, 0.0);
    resized.scale = triple(20.0, 1.0, 20.0);

    assert!(place(&mut world, Pick::Entity(entity), resized, resized));
    assert_eq!(
        world.scene.bodies.get(under).map(|it| it.transform.scale),
        Some(resized.scale),
        "the box that floats things"
    );
    assert_eq!(
        world.scene.entities.get(entity).map(|it| it.transform.scale),
        Some(resized.scale),
        "and the box that is drawn"
    );
}

#[test]
fn a_selection_that_still_resolves_is_left_alone() {
    let (world, entity, ..) = peopled();
    let mut selection = Selection::default();
    selection.set(&world, Pick::Entity(entity));

    selection.refresh(&world);

    assert_eq!(selection.at(), Pick::Entity(entity), "nothing happened to it");
    assert!(selection.is(Pick::Entity(entity)));
}

#[test]
fn a_selection_finds_itself_again_in_a_world_that_was_replaced() {
    let (mut world, entity, ..) = peopled();
    let mut selection = Selection::default();
    selection.set(&world, Pick::Entity(entity));

    world.scene.entities.clear();
    spawn(&mut world, "floor", at(1.0, 0.0, 0.0));
    let moved = spawn(&mut world, "crate", at(0.0, 0.0, 1.0));

    selection.refresh(&world);

    assert_ne!(moved, entity, "it really is a different handle");
    assert_eq!(selection.at(), Pick::Entity(moved), "and the name found it again");
}

#[test]
fn a_selection_with_no_name_goes_out_when_its_handle_does() {
    let (mut world, ..) = peopled();
    let unnamed = spawn(&mut world, "", Transform::unmoved());
    // a second thing with no name, and it outlives the first
    let other = spawn(&mut world, "", at(0.0, 0.0, 1.0));

    let mut selection = Selection::default();
    selection.set(&world, Pick::Entity(unnamed));

    world.scene.entities.despawn(unnamed);
    selection.refresh(&world);

    assert!(world.scene.entities.alive(other), "something unnamed is still standing there");
    assert_eq!(
        selection.at(),
        Pick::Nothing,
        "and it is not what was selected: the empty name is the absence of one"
    );
}

#[test]
fn a_selection_whose_name_nothing_answers_to_goes_out() {
    let (mut world, entity, ..) = peopled();
    let mut selection = Selection::default();
    selection.set(&world, Pick::Entity(entity));

    world.scene.entities.clear();
    spawn(&mut world, "something else", Transform::unmoved());

    selection.refresh(&world);

    assert_eq!(selection.at(), Pick::Nothing, "the name is gone, so the selection is");
}

#[test]
fn a_name_is_looked_for_in_the_table_it_came_from() {
    let (mut world, _, under, _) = peopled();
    let mut selection = Selection::default();
    selection.set(&world, Pick::Body(under));

    // an *entity* now answers to the body's name, and the body does not.
    world.scene.bodies.clear();
    spawn(&mut world, "crate body", Transform::unmoved());

    selection.refresh(&world);

    assert_eq!(
        selection.at(),
        Pick::Nothing,
        "a body is not found again by something else wearing its name"
    );
}

#[test]
fn moving_an_entity_moves_the_body_under_it() {
    let (mut world, entity, under, _) = peopled();
    let put = at(3.0, 4.0, 5.0);

    assert!(place(&mut world, Pick::Entity(entity), put, put), "something moved");

    assert_eq!(
        stands(&world, entity),
        Some(put.position),
        "the entity went where it was put"
    );
    assert_eq!(
        lies(&world, under),
        Some(put.position),
        "and the body went with it, or play would snap it back"
    );
}

#[test]
fn moving_a_body_moves_the_entity_it_drives() {
    let (mut world, entity, under, _) = peopled();
    let put = at(-1.0, 2.0, -3.0);

    assert!(place(&mut world, Pick::Body(under), put, put));

    assert_eq!(
        stands(&world, entity),
        Some(put.position),
        "the same pair, written from the other end"
    );
    assert_eq!(drives(&world.scene, under), Some(entity));
}

#[test]
fn an_entity_with_nothing_under_it_moves_on_its_own() {
    let (mut world, ..) = peopled();
    let lone = spawn(&mut world, "", Transform::unmoved());
    let put = at(1.0, 0.0, 0.0);

    assert!(place(&mut world, Pick::Entity(lone), put, put), "it still moves");
    assert_eq!(stands(&world, lone), Some(put.position));
    assert!(driver(&world.scene.bodies, lone).is_none(), "and there was nothing under it");
}

#[test]
fn a_child_is_picked_up_in_the_world_and_put_down_as_a_local() {
    let (mut world, ..) = peopled();
    let car = spawn(&mut world, "car", at(5.0, 0.0, 0.0));
    let wheel = spawn(&mut world, "wheel", at(1.0, 0.0, 0.0));
    assert!(set_parent(&mut world.scene.entities, wheel, car));

    assert_eq!(
        local(&world, Pick::Entity(wheel)).map(|it| it.position),
        Some(triple(1.0, 0.0, 0.0)),
        "and the inspector sees its place inside the car"
    );

    // nine along in the world is four along inside the car
    assert!(place(&mut world, Pick::Entity(wheel), at(9.0, 0.0, 0.0), at(4.0, 0.0, 0.0)));
    assert_eq!(
        stands(&world, wheel),
        Some(triple(4.0, 0.0, 0.0)),
        "a world drop lands as a local"
    );
}

#[test]
fn a_body_under_a_child_is_teleported_and_the_child_lands_as_a_local() {
    let (mut world, ..) = peopled();
    let car = spawn(&mut world, "car", at(5.0, 0.0, 0.0));
    let wheel = spawn(&mut world, "wheel", at(1.0, 0.0, 0.0));
    assert!(set_parent(&mut world.scene.entities, wheel, car));
    let under = world.scene.bodies.spawn(
        "",
        Vec::new(),
        body(BodyKind::Dynamic, ShapeKind::Box, at(6.0, 0.0, 0.0), wheel),
    );

    assert!(place(&mut world, Pick::Body(under), at(9.0, 0.0, 0.0), at(4.0, 0.0, 0.0)));

    assert_eq!(
        lies(&world, under),
        Some(triple(9.0, 0.0, 0.0)),
        "the body is where it was put, in the world"
    );
    assert_eq!(
        stands(&world, wheel),
        Some(triple(4.0, 0.0, 0.0)),
        "and the wheel took it as its place inside the car"
    );
}

#[test]
fn nothing_and_a_joint_are_not_things_that_are_anywhere() {
    let (mut world, _, _, joint) = peopled();
    let unmoved = Transform::unmoved();

    assert!(local(&world, Pick::Joint(joint)).is_none(), "a joint is a relationship");
    assert!(local(&world, Pick::Nothing).is_none());
    assert!(!place(&mut world, Pick::Joint(joint), unmoved, unmoved));
    assert!(!place(&mut world, Pick::Nothing, unmoved, unmoved));
}

#[test]
fn a_handle_to_nothing_does_not_reach_the_bodies_that_drive_nothing() {
    let (mut world, ..) = peopled();
    let floor = world.scene.bodies.spawn(
        "",
        Vec::new(),
        body(BodyKind::Static, ShapeKind::Sphere, at(0.0, 0.0, 0.0), Handle::none()),
    );

    assert!(
        driver(&world.scene.bodies, Handle::none()).is_none(),
        "a null handle drives nothing"
    );
    assert!(
        !place(&mut world, Pick::Entity(Handle::none()), at(1.0, 0.0, 0.0), at(1.0, 0.0, 0.0)),
        "and moving it moves nothing"
    );
    assert_eq!(
        lies(&world, floor),
        Some(triple(0.0, 0.0, 0.0)),
        "the floor in particular, whose entity is also nothing, stayed put"
    );
}

#[test]
fn a_transform_is_read_from_the_table_it_was_asked_about() {
    let (mut world, entity, under, _) = peopled();

    let mut held = world.scene.bodies.get(under).expect("alive");
    held.transform.position = triple(7.0, 0.0, 0.0);
    world.scene.bodies.set(under, held);

    assert_eq!(
        local(&world, Pick::Body(under)).map(|it| it.position),
        Some(triple(7.0, 0.0, 0.0)),
        "the body's own"
    );
    assert_eq!(
        local(&world, Pick::Entity(entity)).map(|it| it.position),
        Some(triple(0.0, 1.0, 0.0)),
        "and the entity's own, which is a different number"
    );
}

#[test]
fn everything_can_be_renamed_in_its_own_table() {
    let (mut world, entity, under, joint) = peopled();

    assert!(rename(&mut world, Pick::Entity(entity), "box"));
    assert!(rename(&mut world, Pick::Body(under), "box body"));
    assert!(rename(&mut world, Pick::Joint(joint), "string"));

    assert_eq!(Pick::Entity(entity).name(&world), "box");
    assert_eq!(Pick::Body(under).name(&world), "box body");
    assert_eq!(Pick::Joint(joint).name(&world), "string");
    assert!(!rename(&mut world, Pick::Nothing, "nowhere"));
}

#[test]
fn a_rename_is_what_the_selection_remembers_afterwards() {
    let (mut world, entity, ..) = peopled();
    let mut selection = Selection::default();
    selection.set(&world, Pick::Entity(entity));

    rename(&mut world, Pick::Entity(entity), "barrel");
    selection.refresh(&world);

    world.scene.entities.clear();
    let again = spawn(&mut world, "barrel", Transform::unmoved());
    selection.refresh(&world);

    assert_eq!(selection.at(), Pick::Entity(again), "it followed the rename");
}

#[test]
fn several_things_are_selected_and_the_last_picked_is_the_primary() {
    let (world, entity, under, joint) = peopled();
    let mut selection = Selection::default();

    selection.set(&world, Pick::Entity(entity));
    selection.toggle(&world, Pick::Body(under));
    selection.toggle(&world, Pick::Joint(joint));

    assert_eq!(selection.len(), 3);
    assert_eq!(selection.at(), Pick::Joint(joint), "the last picked");
    assert_eq!(selection.others(), vec![Pick::Entity(entity), Pick::Body(under)]);
    assert!(selection.is(Pick::Body(under)), "and the others are selected too");

    selection.toggle(&world, Pick::Joint(joint));
    assert_eq!(
        selection.at(),
        Pick::Body(under),
        "taking the primary out leaves the one before"
    );

    selection.toggle(&world, Pick::Nothing);
    assert_eq!(selection.len(), 2, "nothing is neither added nor taken out");

    selection.set(&world, Pick::Nothing);
    assert_eq!(selection.len(), 0, "a click on empty space clears the lot");
    assert!(!selection.is(Pick::Nothing), "and nothing is never selected");
}

#[test]
fn a_selection_of_several_keeps_the_ones_that_still_resolve() {
    let (mut world, entity, under, _) = peopled();
    let mut selection = Selection::default();
    selection.set(&world, Pick::Entity(entity));
    selection.toggle(&world, Pick::Body(under));

    world.scene.bodies.despawn(under);
    selection.refresh(&world);

    assert_eq!(
        selection.picks(),
        vec![Pick::Entity(entity)],
        "the body is gone, the entity stays"
    );
}

#[test]
fn descendants_are_every_entity_down_the_chain_and_not_the_ancestor_itself() {
    let mut world = World::new();
    let car = spawn(&mut world, "", Transform::unmoved());
    let wheel = spawn(&mut world, "", at(1.0, 0.0, 0.0));
    let hub = spawn(&mut world, "", at(0.0, 1.0, 0.0));
    let other = spawn(&mut world, "", at(0.0, 0.0, 1.0));
    let entities = &mut world.scene.entities;
    assert!(set_parent(entities, wheel, car));
    assert!(set_parent(entities, hub, wheel));

    assert_eq!(descendants(entities, car), vec![wheel, hub]);
    assert_eq!(descendants(entities, wheel), vec![hub]);
    assert!(descendants(entities, other).is_empty());
    assert!(descendants(entities, Handle::none()).is_empty(), "nothing hangs off nothing");
}

#[test]
fn deleting_an_entity_takes_its_branch_its_bodies_and_their_joints() {
    let (mut world, entity, under, joint) = peopled();
    let wheel = spawn(&mut world, "", at(1.0, 0.0, 0.0));
    assert!(set_parent(&mut world.scene.entities, wheel, entity));
    let wheel_body = world.scene.bodies.spawn(
        "",
        Vec::new(),
        body(BodyKind::Dynamic, ShapeKind::Box, at(1.0, 1.0, 0.0), wheel),
    );
    let bystander = spawn(&mut world, "", at(0.0, 0.0, 1.0));
    let floor = world.scene.bodies.spawn(
        "",
        Vec::new(),
        body(BodyKind::Static, ShapeKind::Sphere, at(0.0, 0.0, 0.0), Handle::none()),
    );

    let went = delete(&mut world, &vec![Pick::Entity(entity)]);

    assert_eq!(went, Deleted { entities: 2, bodies: 2, joints: 1 });
    let scene = &world.scene;
    assert!(!scene.entities.alive(entity) && !scene.entities.alive(wheel));
    assert!(!scene.bodies.alive(under) && !scene.bodies.alive(wheel_body));
    assert!(!scene.joints.alive(joint), "the rope held a body that went");
    assert!(scene.entities.alive(bystander) && scene.bodies.alive(floor), "the rest stands");
}

#[test]
fn deleting_a_body_takes_its_joints_and_leaves_its_entity() {
    let (mut world, entity, under, joint) = peopled();

    let went = delete(&mut world, &vec![Pick::Body(under)]);

    assert_eq!(went, Deleted { entities: 0, bodies: 1, joints: 1 });
    assert!(
        world.scene.entities.alive(entity),
        "the thing drawn stays; the collider under it went"
    );
    assert!(!world.scene.joints.alive(joint));

    assert_eq!(
        delete(&mut world, &vec![Pick::Body(under), Pick::Nothing]),
        Deleted::default(),
        "a stale handle and nothing at all delete nothing"
    );
}

#[test]
fn a_duplicate_is_a_second_branch_with_its_bodies_and_joints_beside_the_first() {
    let (mut world, car, car_body, rope) = peopled();
    let wheel = spawn(&mut world, "wheel", at(1.0, 0.0, 0.0));
    assert!(set_parent(&mut world.scene.entities, wheel, car));
    let wheel_body = world.scene.bodies.spawn(
        "",
        Vec::new(),
        body(BodyKind::Dynamic, ShapeKind::Box, at(1.0, 1.0, 0.0), wheel),
    );
    let axle = world.scene.joints.spawn(
        "",
        Vec::new(),
        Joint { kind: JointKind::Weld, first: car_body, second: wheel_body },
    );
    let before =
        (world.scene.entities.len(), world.scene.bodies.len(), world.scene.joints.len());

    let copies = duplicate(&mut world, &vec![Pick::Entity(car)]);

    assert_eq!(copies.len(), 1, "one thing was picked, so one copy is selected");
    let Some(Pick::Entity(car_copy)) = copies.first().copied() else {
        panic!("the copy of the car");
    };
    let scene = &world.scene;
    assert_ne!(car_copy, car);
    assert_eq!(scene.entities.name(car_copy), "crate", "the name is kept");
    assert_eq!(
        (scene.entities.len(), scene.bodies.len(), scene.joints.len()),
        (before.0 + 2, before.1 + 2, before.2 + 2),
        "the car and the wheel, their two bodies, the rope and the axle"
    );
    assert!(scene.entities.alive(car) && scene.bodies.alive(car_body), "the originals stand");

    let wheel_copy = descendants(&scene.entities, car_copy);
    assert_eq!(wheel_copy.len(), 1, "the wheel came along");
    assert_eq!(scene.entities.name(wheel_copy[0]), "wheel");
    assert_eq!(
        stands(&world, wheel_copy[0]),
        stands(&world, wheel),
        "in the same place as the original"
    );

    let driving: Vec<BodyId> = scene
        .bodies
        .ids()
        .into_iter()
        .filter(|id| {
            scene
                .bodies
                .get(*id)
                .is_some_and(|it| it.entity == car_copy || it.entity == wheel_copy[0])
        })
        .collect();
    assert_eq!(driving.len(), 2, "each copy has its body");

    let holding: Vec<Joint> = scene
        .joints
        .ids()
        .into_iter()
        .filter(|id| *id != rope && *id != axle)
        .filter_map(|id| scene.joints.get(id))
        .collect();
    assert_eq!(holding.len(), 2, "the rope to the world and the axle between the copies");
    assert!(
        holding.iter().all(|joint| driving.contains(&joint.first)),
        "each copied joint holds a copied body first"
    );
    assert!(
        holding.iter().any(|joint| !joint.second.is_some())
            && holding.iter().any(|joint| driving.contains(&joint.second)),
        "one still to the world, one to the other copy"
    );
}

#[test]
fn a_duplicate_carries_what_its_records_hold_and_what_waits_for_one() {
    let mut world = World::new();
    let notes = vec!["door.open true".to_owned()];
    let held = || {
        let mut sheets: Vec<Vec<Value>> = (0..RECORDS).map(|_| Vec::new()).collect();
        sheets[LAMP].push(Value::Bool(true));
        sheets[PAINT].push(Value::Int(3));
        sheets.push(vec![Value::Bool(true), Value::Text("brass".to_owned())]);
        sheets
    };
    let car = world.scene.entities.spawn_with(
        "crate",
        notes.clone(),
        held(),
        Entity::plain(at(0.0, 1.0, 0.0)),
    );

    let copies = duplicate(&mut world, &vec![Pick::Entity(car)]);
    let Some(Pick::Entity(copy)) = copies.first().copied() else {
        panic!("the copy of the car");
    };
    let says = |id: EntityId, record: usize, said: &Vec<Value>| {
        let sheet = world.scene.entities.sheet(id, record);
        sheet.len() == said.len() && sheet.iter().zip(said).all(|(one, other)| one.same(other))
    };

    assert!(says(copy, RECORDS, &held()[RECORDS]), "every value, field by field");
    assert!(says(copy, LAMP, &held()[LAMP]), "and what it shines");
    assert!(says(copy, PAINT, &Vec::new()), "what it paints is its own");
    assert!(says(car, PAINT, &held()[PAINT]) && says(car, RECORDS, &held()[RECORDS]));
    assert_eq!(world.scene.entities.notes(copy), notes, "and what waits for a record");
    assert_eq!(world.scene.entities.notes(car), notes);
}

#[test]
fn a_body_picked_on_its_own_is_copied_driving_nothing() {
    let (mut world, entity, under, _) = peopled();

    let copies = duplicate(&mut world, &vec![Pick::Body(under)]);

    let Some(Pick::Body(copy)) = copies.first().copied() else {
        panic!("the copy of the body");
    };
    assert_eq!(
        world.scene.bodies.get(copy).map(|it| it.entity),
        Some(Handle::none()),
        "two bodies driving one entity would be a fight"
    );
    assert_eq!(
        world.scene.bodies.get(under).map(|it| it.entity),
        Some(entity),
        "the original keeps its entity"
    );
}

#[test]
fn what_something_became_is_found_by_what_it_was() {
    let was = Handle { slot: 1, generation: 4 };
    let now = Handle { slot: 9, generation: 1 };
    let copies = vec![(was, now)];

    assert_eq!(became(&copies, was), Some(now));
    assert_eq!(became(&copies, now), None);
}

#[test]
fn a_dropped_mesh_is_an_entity_drawing_it_where_it_was_dropped() {
    let mut world = World::new();
    let mesh = world.meshes.insert("meshes/crystal", true);

    let landed = drop_mesh(&mut world, "meshes/crystal", at(2.0, 0.0, -1.0));

    let [Pick::Entity(entity)] = landed[..] else {
        panic!("one entity: {landed:?}");
    };
    assert_eq!(world.scene.entities.name(entity), "crystal", "called after the mesh");
    assert_eq!(stands(&world, entity), Some(triple(2.0, 0.0, -1.0)));
    assert_eq!(world.scene.entities.get(entity).map(|it| it.mesh), Some(mesh));
    assert!(
        drop_mesh(&mut world, "meshes/nothing", at(0.0, 0.0, 0.0)).is_empty(),
        "a mesh nobody registered makes nothing"
    );
}

#[test]
fn a_dropped_scene_is_laid_down_with_its_roots_moved_to_the_drop() {
    // laying a scene down is reckoned outside; what landed is selected, and
    // the whole of it is one step back
    let mut world = World::new();
    world.editing = true;
    let mut panels = Panels::new();
    let asked = panels.apply(
        &mut world,
        &Change::Drop {
            name: "scenes/box".to_owned(),
            kind: Kind::Scene,
            standing: at(5.0, 0.0, 0.0),
        },
    );
    assert!(matches!(
        asked,
        Some(colby_editor::panels::Request::Lay(name)) if name == "scenes/box"
    ));

    let root = spawn(&mut world, "crate", at(5.0, 1.0, 0.0));
    let lid = spawn(&mut world, "lid", at(0.0, 1.0, 0.0));
    assert!(set_parent(&mut world.scene.entities, lid, root));
    panels.land(&world, &vec![root, lid], &vec![]);

    assert_eq!(landed(&vec![root, lid], &vec![]).len(), 2, "both things of the scene");
    assert_eq!(
        panels.selection.picks(),
        vec![Pick::Entity(root), Pick::Entity(lid)],
        "and both of them selected"
    );
    assert_eq!(parent(&world.scene.entities, lid), root, "still hanging off the crate");
}

/// A piece of a model.
fn piece(name: &str, standing: Transform) -> Placement {
    Placement {
        name: name.to_owned(),
        mesh: CUBE,
        material: 0,
        transform: standing,
        light: Light { kind: LightKind::Dark, range: 0, outer: 0 },
    }
}

#[test]
fn a_dropped_model_is_an_entity_with_a_child_per_piece() {
    let mut world = World::new();
    world.insert_model(
        "models/lamp",
        vec![piece("base", at(0.0, 0.0, 0.0)), piece("shade", at(0.0, 2.0, 0.0))],
    );

    let landed = drop_model(&mut world, "models/lamp", at(3.0, 0.0, 0.0));

    let [Pick::Entity(above)] = landed[..] else {
        panic!("the model's own entity: {landed:?}");
    };
    assert_eq!(world.scene.entities.name(above), "lamp");
    assert_eq!(stands(&world, above), Some(triple(3.0, 0.0, 0.0)));
    let pieces = descendants(&world.scene.entities, above);
    assert_eq!(pieces.len(), 2, "a child per piece");
    let shade = pieces
        .iter()
        .copied()
        .find(|id| world.scene.entities.name(*id) == "shade")
        .expect("the shade");
    assert_eq!(
        stands(&world, shade),
        Some(triple(0.0, 2.0, 0.0)),
        "where the model puts it, from where the model was dropped"
    );
    assert_eq!(world.scene.entities.get(shade).map(|it| it.mesh), Some(CUBE));
}

#[test]
fn a_block_is_solid_and_its_collider_is_the_block() {
    let mut world = World::new();
    let mut standing = at(0.0, 1.0, 0.0);
    standing.scale = triple(2.0, 2.0, 2.0);
    let made = block(&mut world, standing);

    assert_eq!(made.len(), 1, "one thing selected, and it is the entity");

    let id = world.scene.bodies.find("block");
    let held = world.scene.bodies.get(id).expect("a block is solid");

    assert_eq!(held.kind, BodyKind::Static, "and static, because a wall does not fall");
    assert_eq!(held.shape, ShapeKind::Box);
    assert_eq!(
        held.transform.scale,
        triple(2.0, 2.0, 2.0),
        "in a transform that is the block"
    );
}

#[test]
fn a_block_stands_on_the_floor_rather_than_half_through_it() {
    // where that is was reckoned before; the block stands there
    let mut world = World::new();
    let made = block(&mut world, at(2.5, 0.5, -1.0));

    let [Pick::Entity(entity)] = made[..] else {
        panic!("one entity: {made:?}");
    };
    let standing = world.scene.entities.get(entity).expect("it stands somewhere").transform;

    assert_eq!(standing.position, triple(2.5, 0.5, -1.0));
    assert_eq!(standing.scale, triple(1.0, 1.0, 1.0), "a unit cube");
    assert_eq!(world.scene.entities.name(entity), "block");
}

#[test]
fn a_dropped_texture_is_nothing() {
    let mut world = World::new();
    world.editing = true;
    let mut panels = Panels::new();
    let asked = panels.apply(
        &mut world,
        &Change::Drop {
            name: "textures/wall".to_owned(),
            kind: Kind::Texture,
            standing: at(0.0, 0.0, 0.0),
        },
    );

    assert!(asked.is_none());
    assert_eq!(world.scene.entities.len(), 0);
    assert_eq!(panels.selection.len(), 0);
}

#[test]
fn toggling_twice_leaves_the_others_selected() {
    let (world, entity, under, _) = peopled();
    let mut selection = Selection::default();
    selection.set(&world, Pick::Entity(entity));
    selection.toggle(&world, Pick::Body(under));
    selection.toggle(&world, Pick::Body(under));

    assert_eq!(selection.picks(), vec![Pick::Entity(entity)]);
    selection.clear();
    assert_eq!(selection.len(), 0);
}

#[test]
fn a_thing_is_found_again_by_name_and_only_by_name() {
    let (world, entity, ..) = peopled();
    let gone = Handle { slot: 40, generation: 3 };

    assert_eq!(again(&world, Pick::Entity(gone), "crate"), Pick::Entity(entity));
    assert_eq!(again(&world, Pick::Entity(gone), ""), Pick::Nothing);
    assert_eq!(again(&world, Pick::Body(gone), "crate"), Pick::Nothing);
    assert!(Pick::Entity(entity).alive(&world));
    assert!(!Pick::Entity(gone).alive(&world));
}

#[test]
fn a_thing_cannot_hang_off_itself_or_off_what_hangs_off_it() {
    let (mut world, entity, ..) = peopled();
    let wheel = spawn(&mut world, "wheel", Transform::unmoved());
    let inside = at(1.0, 0.0, 0.0);

    assert!(hang(&mut world, wheel, entity, inside));
    assert!(hangs_off(&world.scene.entities, wheel, entity));
    assert_eq!(stands(&world, wheel), Some(inside.position));
    assert!(!hang(&mut world, entity, wheel, inside), "a circle is refused");
    assert!(!hang(&mut world, entity, entity, inside));
    assert!(hang(&mut world, wheel, Handle::none(), inside), "and taken off again");
    assert!(!hangs_off(&world.scene.entities, wheel, entity));
}

#[test]
fn what_hangs_off_something_hidden_is_not_shown() {
    let (mut world, entity, ..) = peopled();
    let wheel = spawn(&mut world, "wheel", Transform::unmoved());
    assert!(set_parent(&mut world.scene.entities, wheel, entity));
    assert!(shown(&world.scene.entities, wheel));

    let mut held = world.scene.entities.get(entity).expect("alive");
    held.hidden = true;
    world.scene.entities.set(entity, held);
    assert!(!shown(&world.scene.entities, wheel));
    assert!(!shown(&world.scene.entities, entity));
}

#[test]
fn a_branch_picked_with_its_root_is_one_branch() {
    let (mut world, entity, ..) = peopled();
    let wheel = spawn(&mut world, "wheel", Transform::unmoved());
    assert!(set_parent(&mut world.scene.entities, wheel, entity));

    assert_eq!(
        branches(&world.scene.entities, &vec![Pick::Entity(wheel), Pick::Entity(entity)]),
        vec![entity, wheel]
    );
}

#[test]
fn a_name_and_a_description_are_told_apart() {
    let (mut world, entity, under, joint) = peopled();
    assert_eq!(entity_label(&world, entity), "crate");
    assert_eq!(body_label(&world, under), "crate body");
    assert_eq!(joint_label(&world, joint), "rope");

    let bare = spawn(&mut world, "", Transform::unmoved());
    assert_eq!(entity_label(&world, bare), format!("<entity {}>", bare.slot));
    rename(&mut world, Pick::Body(under), "");
    assert_eq!(body_label(&world, under), format!("<dynamic sphere {}>", under.slot));
}

#[test]
fn a_stale_handle_stays_stale() {
    let mut world = World::new();
    let first = spawn(&mut world, "first", Transform::unmoved());
    assert!(world.scene.entities.despawn(first));
    assert!(!world.scene.entities.despawn(first));
    let second = spawn(&mut world, "second", Transform::unmoved());

    assert_eq!(first.slot, second.slot, "the slot is used again");
    assert_ne!(first, second);
    assert!(!world.scene.entities.alive(first));
    assert_eq!(world.scene.entities.name(first), "");
}

#[test]
fn a_stem_is_the_last_part_of_a_name() {
    assert_eq!(stem("meshes/crystal"), "crystal");
    assert_eq!(stem("crystal"), "crystal");
    assert_eq!(stem("a/"), "");
}
