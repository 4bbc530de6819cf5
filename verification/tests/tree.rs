use colby_editor::aim::{self, candidates, Camera, Fly, Looking};
use colby_editor::change::Change;
use colby_editor::copy::duplicate;
use colby_editor::entities;
use colby_editor::gizmo::{grabbed, nearest, Axis, Tool};
use colby_editor::group::{children, group, ungroup};
use colby_editor::helper::{
    self, handles, marks, noted, outlines, under, Draw, Drawn, Held, Kind, Knob, Shape,
};
use colby_editor::hierarchy::{acted, eye, eye_pressed, hangs_on, Hierarchy};
use colby_editor::history::History;
use colby_editor::inspector::{
    body_line, counted, detail, footing, guiding, hanging, has_row, heading, inspect,
    others_of_kind, piece_row, reference, resolve, standing_line, step, tie, waiting, waiting_line,
    within, word_shown, write_material, Guide, Section,
};
use colby_editor::paint::{ground_under, triangles, Brush, Corners, Spot};
use colby_editor::section::{rows, write_section, RECORDS};
use colby_editor::select::{Pick, Selection};
use colby_editor::table::Handle;
use colby_editor::tree::{parent, set_parent};
use colby_editor::value::Value;
use colby_editor::world::{
    Body, BodyId, BodyKind, Entity, EntityId, Joint, JointKind, Light, LightKind, Placement,
    Quad, ShapeKind, Transform, Triple, World,
};

/// Three fractions, by their bits.
fn triple(x: f32, y: f32, z: f32) -> Triple {
    Triple { x: x.to_bits(), y: y.to_bits(), z: z.to_bits() }
}

/// Standing somewhere.
fn at(x: f32, y: f32, z: f32) -> Transform {
    Transform::at(triple(x, y, z))
}

/// A thing standing somewhere.
fn spawn(world: &mut World, name: &str, standing: Transform) -> EntityId {
    world.scene.entities.spawn(name, Vec::new(), Entity::plain(standing))
}

/// Changes what is known of an entity.
fn alter(world: &mut World, id: EntityId, with: impl Fn(&mut Entity)) {
    let mut held = world.scene.entities.get(id).expect("alive");
    with(&mut held);
    world.scene.entities.set(id, held);
}

/// A body of a shape, driving something or nothing.
fn put_body(world: &mut World, shape: ShapeKind, entity: EntityId, wet: bool) -> BodyId {
    world.scene.bodies.spawn(
        "",
        Vec::new(),
        Body {
            entity,
            transform: Transform::unmoved(),
            kind: BodyKind::Static,
            shape,
            collider: 0,
            sensor: false,
            wet,
        },
    )
}

// ---- the hierarchy -----------------------------------------------------

/// A car with a wheel hanging off it, a body under the car and a floor on its
/// own.
fn yard() -> (World, EntityId, EntityId) {
    let mut world = World::new();
    let car = spawn(&mut world, "car", at(1.0, 0.0, 0.0));
    let wheel = spawn(&mut world, "wheel", at(0.0, 1.0, 0.0));
    assert!(set_parent(&mut world.scene.entities, wheel, car));
    put_body(&mut world, ShapeKind::Sphere, car, false);
    put_body(&mut world, ShapeKind::Box, Handle::none(), false);

    (world, car, wheel)
}

#[test]
fn a_child_is_filed_under_its_parent_and_a_root_among_the_roots() {
    let (world, ..) = yard();
    let mut hierarchy = Hierarchy::default();

    hierarchy.gather(&world.scene);

    assert_eq!(hierarchy.roots.len(), 1, "the car stands on its own");
    let car = hierarchy.roots[0];
    assert_eq!(world.scene.entities.name(car), "car");
    let under = &hierarchy.children[car.slot as usize];
    assert_eq!(under.len(), 1, "and the wheel hangs off it");
    assert_eq!(world.scene.entities.name(under[0]), "wheel");
    assert_eq!(hierarchy.bodies.len(), 2);
    assert_eq!(hierarchy.driving(&world.scene, car).len(), 1, "one body drives the car");
}

#[test]
fn a_child_whose_parent_went_away_is_a_root_again() {
    let (mut world, car, _) = yard();
    world.scene.entities.despawn(car);

    let mut hierarchy = Hierarchy::default();
    hierarchy.gather(&world.scene);

    assert_eq!(hierarchy.roots.len(), 1, "the wheel is on its own now");
    assert_eq!(world.scene.entities.name(hierarchy.roots[0]), "wheel");
}

#[test]
fn the_tree_draws_without_a_window_and_presses_nothing() {
    let (world, car, _) = yard();
    let mut hierarchy = Hierarchy::default();
    hierarchy.gather(&world.scene);

    let changes = acted(Pick::Entity(car), false, false, false, false);

    assert!(changes.is_empty(), "nobody pressed anything");
    assert_eq!(hierarchy.entities.len(), 2, "and the frame gathered the world");
    assert_eq!(hierarchy.heading(), "2 entities, 2 bodies, 0 joints");
    assert_eq!(hierarchy.loose(&world.scene).len(), 1, "the floor is on its own");
}

#[test]
fn the_eye_hides_a_thing_that_is_drawn_and_shows_one_that_is_hidden() {
    let (mut world, car, _) = yard();

    assert!(matches!(
        eye_pressed(&world.scene, car),
        Change::Hide { entity, hidden: true } if entity == car
    ));

    alter(&mut world, car, |held| held.hidden = true);

    assert!(
        matches!(
            eye_pressed(&world.scene, car),
            Change::Hide { entity, hidden: false } if entity == car
        ),
        "and pressed again it shows it"
    );
}

#[test]
fn the_eye_of_a_thing_its_parent_hides_sets_its_own_word() {
    let (mut world, car, wheel) = yard();
    alter(&mut world, car, |held| held.hidden = true);

    assert!(matches!(
        eye_pressed(&world.scene, wheel),
        Change::Hide { entity, hidden: true } if entity == wheel
    ));
    assert!(eye(&world.scene, wheel).weak, "it is not drawn");
    assert!(!eye(&world.scene, wheel).struck, "though its own word does not hide it");
    assert!(eye(&world.scene, car).struck);
}

#[test]
fn a_press_on_a_row_selects_it_or_adds_it() {
    let pick = Pick::Entity(Handle { slot: 3, generation: 1 });

    assert!(matches!(acted(pick, true, false, false, false)[..], [Change::Select(_)]));
    assert!(matches!(acted(pick, true, true, false, false)[..], [Change::Toggle(_)]));
    assert!(matches!(acted(pick, false, false, true, false)[..], [Change::Select(_)]));
    assert!(acted(pick, false, false, true, true).is_empty(), "a menu on what is selected");
}

#[test]
fn the_plain_list_says_what_each_thing_draws() {
    let (mut world, car, _) = yard();
    let cube = world.meshes.insert("cube", true);
    alter(&mut world, car, |held| held.mesh = cube);

    assert_eq!(entities::rows(&world), ["0  cube", "1  nothing"]);
    assert!(!entities::drag(&mut world.scene.entities, car, at(1.0, 0.0, 0.0)), "it is there already");
    assert!(entities::drag(&mut world.scene.entities, car, at(2.0, 0.0, 0.0)));
    assert!(!entities::drag(&mut world.scene.entities, Handle::none(), at(2.0, 0.0, 0.0)));
}

#[test]
fn a_row_is_hung_off_what_it_is_let_go_over() {
    let row = Handle { slot: 1, generation: 1 };
    let other = Handle { slot: 2, generation: 1 };

    assert_eq!(hangs_on(row, Some(other)), Some(other));
    assert_eq!(hangs_on(row, Some(row)), None, "not off itself");
    assert_eq!(hangs_on(row, None), Some(Handle::none()), "over the floor it stands alone");
}

// ---- marks, outlines and handles ---------------------------------------

/// A world with the built-in cube in it.
fn cubed() -> World {
    let mut world = World::new();
    world.meshes.insert("meshes/cube", true);

    world
}

/// A lamp of a kind.
fn lit(kind: LightKind) -> Light {
    Light { kind, range: 4.0f32.to_bits(), outer: 0 }
}

/// An entity drawing the cube.
fn drawn(world: &mut World, standing: Transform) -> EntityId {
    let id = spawn(world, "", standing);
    alter(world, id, |held| held.mesh = 1);

    id
}

#[test]
fn only_a_thing_that_draws_nothing_and_is_something_is_marked() {
    let mut world = cubed();
    let lamp = spawn(&mut world, "", Transform::unmoved());
    alter(&mut world, lamp, |held| held.light = lit(LightKind::Point));
    let empty = spawn(&mut world, "", at(1.0, 0.0, 0.0));
    let crate_ = drawn(&mut world, at(-1.0, 0.0, 0.0));
    alter(&mut world, crate_, |held| held.light = lit(LightKind::Point));

    let found = marks(&world);

    assert_eq!(found.len(), 1, "the lamp with no mesh, and nothing else");
    assert_eq!(found[0].pick, Pick::Entity(lamp));
    assert_eq!(found[0].kind, Kind::Lamp);
    assert!(
        !found.iter().any(|mark| mark.pick == Pick::Entity(empty)),
        "an entity that is nothing in particular is not marked"
    );
}

#[test]
fn a_mark_says_which_of_the_four_kinds_it_is() {
    let mut world = cubed();
    let lamp = spawn(&mut world, "", Transform::unmoved());
    alter(&mut world, lamp, |held| held.light = lit(LightKind::Point));
    let spot = spawn(&mut world, "", at(1.0, 0.0, 0.0));
    alter(&mut world, spot, |held| held.light = lit(LightKind::Spot));
    let thrower = spawn(&mut world, "", at(0.0, 1.0, 0.0));
    alter(&mut world, thrower, |held| held.emitter = 1);
    let painter = spawn(&mut world, "", at(0.0, -1.0, 0.0));
    alter(&mut world, painter, |held| held.decal = 1);

    let kinds: Vec<Kind> = marks(&world).into_iter().map(|mark| mark.kind).collect();

    assert_eq!(kinds, vec![Kind::Lamp, Kind::Spot, Kind::Thrower, Kind::Painter]);
}

#[test]
fn a_hidden_thing_is_not_marked() {
    let mut world = cubed();
    let lamp = spawn(&mut world, "", Transform::unmoved());
    alter(&mut world, lamp, |held| held.light = lit(LightKind::Point));
    alter(&mut world, lamp, |held| held.hidden = true);

    assert!(marks(&world).is_empty());
}

#[test]
fn a_body_is_outlined_when_nothing_draws_where_it_stands() {
    let mut world = cubed();
    let bare = put_body(&mut world, ShapeKind::Box, Handle::none(), false);
    let seen = drawn(&mut world, at(4.0, 0.0, 0.0));
    put_body(&mut world, ShapeKind::Box, seen, false);

    let found = outlines(&world);

    assert_eq!(found.len(), 1, "the bare body, and not the one under a crate");
    assert_eq!(found[0].pick, Pick::Body(bare));
    assert_eq!(found[0].drawn, Drawn::Solid);
}

#[test]
fn a_body_under_a_hidden_thing_is_not_outlined() {
    let mut world = cubed();
    let trigger = spawn(&mut world, "", Transform::unmoved());
    put_body(&mut world, ShapeKind::Box, trigger, false);
    alter(&mut world, trigger, |held| held.hidden = true);

    assert!(
        outlines(&world).is_empty(),
        "what is hidden is not drawn, the way it is not picked"
    );
}

#[test]
fn a_body_under_an_entity_that_draws_nothing_is_outlined_and_picks_the_entity() {
    let mut world = cubed();
    let trigger = spawn(&mut world, "", Transform::unmoved());
    put_body(&mut world, ShapeKind::Box, trigger, false);

    let found = outlines(&world);

    assert_eq!(found.len(), 1);
    assert_eq!(found[0].pick, Pick::Entity(trigger), "the thing a person means");
}

#[test]
fn a_pool_says_where_its_surface_is() {
    let mut world = cubed();
    put_body(&mut world, ShapeKind::Box, Handle::none(), true);

    assert_eq!(outlines(&world)[0].drawn, Drawn::Fluid);
}

#[test]
fn a_mesh_shaped_body_is_not_outlined() {
    let mut world = cubed();
    put_body(&mut world, ShapeKind::Mesh, Handle::none(), false);

    assert!(outlines(&world).is_empty(), "a soup is not an outline");
}

#[test]
fn a_joint_is_a_line_between_its_anchors_and_a_click_finds_it() {
    let mut world = cubed();
    let crate_ = drawn(&mut world, Transform::unmoved());
    let first = put_body(&mut world, ShapeKind::Box, crate_, false);
    let rope = world.scene.joints.spawn(
        "",
        Vec::new(),
        Joint { kind: JointKind::Rope, first, second: Handle::none() },
    );

    let found = outlines(&world);
    let line = found.iter().find(|line| line.drawn == Drawn::Tie).expect("a line");

    assert_eq!(line.pick, Pick::Joint(rope));
    assert_eq!(under(None, Some(line.pick)), Some(Pick::Joint(rope)), "the line is hit");
    assert_eq!(
        under(Some(Pick::Entity(crate_)), Some(line.pick)),
        Some(Pick::Entity(crate_)),
        "a mark before a line"
    );
}

#[test]
fn a_lamp_has_one_handle_on_the_rim_across_the_view() {
    let mut world = cubed();
    let lamp = spawn(&mut world, "", Transform::unmoved());
    alter(&mut world, lamp, |held| held.light = lit(LightKind::Point));

    assert_eq!(handles(&world, Pick::Entity(lamp)), vec![Knob::Range]);
}

#[test]
fn a_spot_has_a_reach_handle_down_its_axis_and_a_cone_handle_on_the_rim() {
    let mut world = cubed();
    let lamp = spawn(&mut world, "", Transform::unmoved());
    alter(&mut world, lamp, |held| held.light = lit(LightKind::Spot));

    assert_eq!(handles(&world, Pick::Entity(lamp)), vec![Knob::Range, Knob::Outer]);
}

#[test]
fn a_lamp_that_throws_nothing_has_no_handle() {
    let mut world = cubed();
    let lamp = spawn(&mut world, "", Transform::unmoved());

    assert!(handles(&world, Pick::Entity(lamp)).is_empty(), "not a lamp at all");
    alter(&mut world, lamp, |held| {
        held.light = Light { range: 0.0f32.to_bits(), ..lit(LightKind::Point) };
    });
    assert!(
        handles(&world, Pick::Entity(lamp)).is_empty(),
        "and one that reaches nowhere throws nothing"
    );
    assert!(handles(&world, Pick::Nothing).is_empty());
}

/// A lamp's knob dragged to a number.
fn drag(world: &mut World, pick: Pick, others: &Vec<EntityId>, knob: Knob, to: u32) -> bool {
    helper::write(world, pick, others, &Vec::new(), knob, Held::Number(to), None)
}

#[test]
fn a_drag_is_written_to_the_lamp_and_to_every_other_lamp_picked() {
    let mut world = cubed();
    let [first, second] = [0.0f32, 1.0].map(|x| {
        let id = spawn(&mut world, "", at(x, 0.0, 0.0));
        alter(&mut world, id, |held| held.light = lit(LightKind::Point));
        id
    });
    let seven = 7.0f32.to_bits();

    assert!(drag(&mut world, Pick::Entity(first), &vec![second], Knob::Range, seven));

    for id in [first, second] {
        let range = world.scene.entities.get(id).expect("alive").light.range;
        assert_eq!(range, seven, "both reach seven");
    }
}

#[test]
fn writing_what_the_field_already_holds_writes_nothing() {
    let mut world = cubed();
    let lamp = spawn(&mut world, "", Transform::unmoved());
    alter(&mut world, lamp, |held| held.light = lit(LightKind::Point));
    let none = Vec::new();

    assert!(!drag(&mut world, Pick::Entity(lamp), &none, Knob::Range, 4.0f32.to_bits()));
    assert!(!drag(&mut world, Pick::Entity(lamp), &none, Knob::Point { table: 0, column: 0 }, 1));
    assert!(!drag(&mut world, Pick::Entity(Handle::none()), &none, Knob::Range, 1));
    assert!(!drag(&mut world, Pick::Nothing, &none, Knob::Range, 1));
}

#[test]
fn a_lamp_dragged_to_some_reach_is_lit_and_every_lamp_picked_with_it() {
    let mut world = cubed();
    let [first, second] = [4.0f32, 0.0].map(|range| {
        let id = spawn(&mut world, "", Transform::unmoved());
        alter(&mut world, id, |held| {
            held.light = Light { range: range.to_bits(), ..lit(LightKind::Point) };
        });
        id
    });
    assert_eq!(marks(&world).len(), 1, "one that reaches nowhere has no mark");

    assert!(drag(&mut world, Pick::Entity(first), &vec![second], Knob::Range, 2.0f32.to_bits()));

    assert_eq!(marks(&world).len(), 2);
    assert_eq!(handles(&world, Pick::Entity(second)), vec![Knob::Range]);
    assert!(drag(&mut world, Pick::Entity(first), &vec![], Knob::Outer, 1.0f32.to_bits()));
    assert_eq!(world.scene.entities.get(first).expect("alive").light.outer, 1.0f32.to_bits());
}

#[test]
fn the_two_knobs_of_a_lamp_name_fields_of_its_table_and_a_record_s_do_not() {
    for knob in [Knob::Range, Knob::Outer] {
        assert!(helper::column(knob).is_some(), "{} is in the light's table", knob.word());
    }

    assert_eq!(
        helper::column(Knob::Radius { table: 0, column: 0 }),
        None,
        "a record's field is reached by where it sits rather than by a name in a table"
    );
}

#[test]
fn a_record_that_says_a_radius_and_a_place_offers_a_handle_for_each() {
    let tables = vec![
        vec![(Draw::Nothing, Shape::Number)],
        vec![(Draw::Radius, Shape::Number), (Draw::Point, Shape::Place)],
    ];

    let mut world = World::new();
    let door = spawn(&mut world, "", Transform::unmoved());
    assert_eq!(
        noted(&world, Pick::Entity(door), &tables),
        vec![Knob::Radius { table: 1, column: 0 }, Knob::Point { table: 1, column: 1 }],
        "the two fields the record says are drawn"
    );

    let stone = put_body(&mut world, ShapeKind::Box, Handle::none(), false);
    assert!(noted(&world, Pick::Body(stone), &tables).is_empty(), "a body has no records");
    assert!(noted(&world, Pick::Nothing, &tables).is_empty());
    world.scene.entities.despawn(door);
    assert!(noted(&world, Pick::Entity(door), &tables).is_empty(), "nor has one that is gone");
}

#[test]
fn a_record_that_says_nothing_offers_no_handle() {
    let mut world = World::new();
    let door = Pick::Entity(spawn(&mut world, "", Transform::unmoved()));

    assert!(noted(&world, door, &vec![vec![(Draw::Nothing, Shape::Number)]]).is_empty());
    assert!(noted(&world, door, &vec![vec![(Draw::Radius, Shape::Other)]]).is_empty());
    assert!(noted(&world, door, &Vec::new()).is_empty());
}

/// A record with a reach, a target and a speed, behind one with a number.
fn door_tables() -> Vec<Vec<(Draw, Shape)>> {
    vec![
        vec![(Draw::Nothing, Shape::Number)],
        vec![
            (Draw::Radius, Shape::Number),
            (Draw::Point, Shape::Place),
            (Draw::Nothing, Shape::Number),
        ],
    ]
}

/// A door, by what its records hold.
fn door(world: &mut World) -> EntityId {
    let id = spawn(world, "", Transform::unmoved());
    let mut sheets: Vec<Vec<Value>> = (0..RECORDS).map(|_| Vec::new()).collect();
    sheets.push(vec![
        Value::Float(1.0f32.to_bits()),
        Value::Float(3.0f32.to_bits()),
        Value::Place(triple(0.0, 0.0, 0.0)),
        Value::Float(9.0f32.to_bits()),
    ]);
    world.scene.entities.set_sheets(id, sheets);

    id
}

#[test]
fn writing_a_record_field_what_it_already_holds_writes_nothing() {
    let mut world = cubed();
    let (first, second, alone) = (door(&mut world), door(&mut world), door(&mut world));
    let tables = door_tables();
    let reach = Knob::Radius { table: 1, column: 0 };
    let target = Knob::Point { table: 1, column: 1 };
    let mut write = |knob: Knob, value: Held, inside: Option<Triple>| {
        helper::write(
            &mut world,
            Pick::Entity(first),
            &vec![second],
            &tables,
            knob,
            value,
            inside,
        )
    };
    let number = |value: f32| Held::Number(value.to_bits());
    let place = triple(1.0, 2.0, 3.0);

    assert!(!write(reach, number(3.0), None), "it says so already");
    assert!(write(reach, number(5.0), None));
    assert!(!write(reach, Held::Place(place), Some(place)), "a reach is no place");
    assert!(!write(target, Held::Place(place), None), "a door that stands nowhere");
    assert!(write(target, Held::Place(place), Some(triple(0.5, 0.0, 0.0))));
    assert!(!write(Knob::Radius { table: 7, column: 0 }, number(5.0), None));
    assert!(!write(Knob::Radius { table: 1, column: 9 }, number(5.0), None));

    for (id, far, at) in [(first, 5.0f32, 0.5), (second, 5.0, 0.5), (alone, 3.0, 0.0)] {
        let held = rows(&world, Pick::Entity(id), Section::Records);
        assert!(held[0].same(&Value::Float(1.0f32.to_bits())), "the record before it is left");
        assert!(held[1].same(&Value::Float(far.to_bits())));
        assert!(held[2].same(&Value::Place(triple(at, 0.0, 0.0))), "in the door's own terms");
        assert!(held[3].same(&Value::Float(9.0f32.to_bits())));
    }
}

// ---- the gizmo, the camera and the brush -------------------------------

#[test]
fn every_axis_has_its_own_place_way_and_color() {
    let places: Vec<usize> = Axis::ALL.into_iter().map(Axis::place).collect();

    assert_eq!(places, vec![0, 1, 2], "in order");
    assert_eq!(Axis::X.way(), triple(1.0, 0.0, 0.0));
    assert_eq!(Axis::Y.way(), triple(0.0, 1.0, 0.0));
    assert_eq!(Axis::Z.way(), triple(0.0, 0.0, 1.0));
    assert_ne!(Axis::X.tint(), Axis::Y.tint(), "and they are told apart by eye");
    assert_eq!(Tool::Size.word(), "size");
}

#[test]
fn two_arms_crossing_resolve_to_the_nearer_one() {
    let far = |away: f32| Some(away.to_bits());
    let reach = 10.0f32.to_bits();

    assert_eq!(grabbed(&vec![far(6.0), far(2.0), None], reach), Some(Axis::Y));
    assert_eq!(grabbed(&vec![far(2.0), far(2.0), None], reach), Some(Axis::X), "the first");
    assert_eq!(nearest(&vec![], reach), None);
}

#[test]
fn an_arm_that_cannot_be_drawn_cannot_be_grabbed() {
    let reach = 10.0f32.to_bits();

    assert_eq!(grabbed(&vec![None, None, None], reach), None);
    assert_eq!(grabbed(&vec![None, Some(10.0f32.to_bits()), None], reach), None, "too far");
}

/// A camera somewhere.
fn camera(z: f32) -> Camera {
    Camera {
        position: triple(0.0, 0.0, z),
        target: triple(0.0, 0.0, 0.0),
        up: triple(0.0, 1.0, 0.0),
        fov: 1.0f32.to_bits(),
    }
}

/// An orbit of a radius.
fn orbit(distance: f32) -> Fly {
    Fly { target: triple(0.0, 0.0, 0.0), yaw: 0, pitch: 0, distance: distance.to_bits() }
}

#[test]
fn a_view_that_nobody_disturbed_is_the_one_from_last_frame() {
    let mut view = Looking::taken(None, camera(9.0), orbit(9.0));
    view.orbit = orbit(5.0);
    view.put(camera(5.0));

    assert_eq!(Looking::taken(Some(view), camera(5.0), orbit(4.9)), view);
}

#[test]
fn a_camera_somebody_else_moved_is_the_one_the_view_takes() {
    let view = Looking::taken(None, camera(9.0), orbit(9.0));
    let taken = Looking::taken(Some(view), camera(3.0), orbit(3.0));

    assert_eq!(taken, Looking { orbit: orbit(3.0), wrote: camera(3.0) });
}

#[test]
fn the_nearer_of_two_is_the_one_that_is_found() {
    let mut world = cubed();
    let near = drawn(&mut world, at(0.0, 0.0, 5.0));
    let far = drawn(&mut world, at(0.0, 0.0, 0.0));
    let ids = candidates(&world);
    assert_eq!(ids, vec![near, far]);

    let entered = vec![Some(3.5f32.to_bits()), Some(8.5f32.to_bits())];
    assert_eq!(aim::under(&ids, &entered), Pick::Entity(near));
    let behind = vec![None, Some(8.5f32.to_bits())];
    assert_eq!(aim::under(&ids, &behind), Pick::Entity(far));
    assert_eq!(aim::under(&ids, &vec![None, None]), Pick::Nothing);
}

#[test]
fn something_drawing_nothing_is_not_there_to_be_clicked() {
    let mut world = cubed();
    spawn(&mut world, "", Transform::unmoved());
    let empty = world.meshes.insert("meshes/empty", false);
    let hollow = drawn(&mut world, Transform::unmoved());
    alter(&mut world, hollow, |held| held.mesh = empty);

    assert!(candidates(&world).is_empty());
}

#[test]
fn a_stroke_dabs_by_the_distance_it_has_gone_and_not_by_the_frame() {
    let spot = |x: f32| Spot { x: x.to_bits(), y: 0 };
    let mut brush = Brush::new();

    assert!(brush.dab(spot(0.0), false), "the first dab lands where the stroke starts");
    assert!(!brush.dab(spot(0.1), false), "a frame later it has gone nowhere");
    assert_eq!(brush.last, Some(spot(0.0)), "and the last dab is where it was");
    assert!(brush.dab(spot(1.0), true), "far enough is a dab");
    assert_eq!(brush.last, Some(spot(1.0)));
    brush.lift();
    assert!(brush.dab(spot(1.0), false), "and a new stroke starts wherever it starts");
}

#[test]
fn a_triangle_that_names_a_corner_nobody_has_is_passed_over() {
    let indices = vec![0, 1, 2, 2, 1, 9, 1, 2, 3, 0];

    assert_eq!(
        triangles(&indices, 4),
        vec![
            Corners { first: 0, second: 1, third: 2 },
            Corners { first: 1, second: 2, third: 3 },
        ]
    );
}

// ---- groups ------------------------------------------------------------

#[test]
fn what_hangs_off_something_picked_comes_along_with_it() {
    let (mut world, car, wheel) = yard();
    let loose = spawn(&mut world, "loose", Transform::unmoved());
    let picks = vec![Pick::Entity(wheel), Pick::Entity(car), Pick::Entity(loose)];

    let made = group(&mut world.scene.entities, &picks, Transform::unmoved(), &Vec::new());
    let [Pick::Entity(town)] = made[..] else {
        panic!("one group: {made:?}");
    };
    assert_eq!(children(&world.scene.entities, town), vec![car, loose]);
    assert_eq!(parent(&world.scene.entities, wheel), car, "still on the car");

    let released = ungroup(&mut world.scene.entities, &made, &Vec::new());
    assert_eq!(released, vec![Pick::Entity(car), Pick::Entity(loose)]);
    assert!(!world.scene.entities.alive(town));
    assert!(!parent(&world.scene.entities, car).is_some());
}

// ---- the inspector -----------------------------------------------------

#[test]
fn a_picture_named_is_taken_and_a_half_typed_one_is_left_alone() {
    let mut world = World::new();
    world.textures.insert("textures/brass", true);
    let mut value = Value::Texture(0);
    let handle = |value: &Value| match *value {
        Value::Texture(id) => id,
        _ => panic!("the kind does not change under it: {value:?}"),
    };

    assert!(!resolve(&world, "textures/bra", &mut value), "a half-typed name is nothing");
    assert_eq!(handle(&value), 0, "and the handle is left where it was");
    assert!(resolve(&world, "textures/brass", &mut value), "a whole one is taken");
    assert_ne!(handle(&value), 0, "and the handle is what it resolved to");
    assert!(!resolve(&world, "textures/brass", &mut value), "the same name again is no move");
    assert!(resolve(&world, "  ", &mut value), "and nothing at all clears it");
    assert_eq!(handle(&value), 0, "which is how a picture is taken off");
}

/// A number, as a field holds one.
fn float(value: f32) -> Value {
    Value::Float(value.to_bits())
}

/// A thing whose records hold something: a tint, a shadow, a rate, whether it
/// is solid, an order, and whether it covers.
fn recorded(world: &mut World, standing: Transform) -> EntityId {
    let id = spawn(world, "", standing);
    world.scene.entities.set_sheets(
        id,
        vec![
            vec![Value::Color(triple(0.2, 0.7, 0.9)), Value::Pose(3)],
            vec![Value::Bool(true)],
            vec![float(0.0)],
            vec![Value::Bool(false)],
            vec![Value::Int(0), float(0.25)],
            vec![Value::Bool(false), Value::Text("door".to_owned())],
        ],
    );

    id
}

/// One frame of the panel: the rows of what is shown are touched, and what that
/// comes to is written. Whether anything was.
fn panel(
    world: &mut World,
    history: &mut History,
    section: Section,
    picked: &[Pick],
    shown: Pick,
    touch: impl Fn(&mut Vec<Value>),
) -> bool {
    let mut selection = Selection::default();
    for pick in picked {
        selection.toggle(world, *pick);
    }
    if shown != Pick::Nothing {
        selection.toggle(world, shown);
    }
    let others = others_of_kind(&selection);
    let mut now = rows(world, shown, section);
    touch(&mut now);

    write_section(world, history, shown, &others, section, &now, &Vec::new())
}

/// One row of each of several things.
fn row_of(world: &World, picks: &[Pick], section: Section, row: usize) -> Vec<Value> {
    picks
        .iter()
        .map(|pick| rows(world, *pick, section).swap_remove(row))
        .collect()
}

/// What one row of each of several things says, as truths.
fn truths(world: &World, picks: &[Pick], section: Section, row: usize) -> Vec<bool> {
    row_of(world, picks, section, row)
        .iter()
        .map(|value| value.same(&Value::Bool(true)))
        .collect()
}

/// Closes the record a gesture opened: the frame that wrote, and the first one
/// nobody wrote in.
fn close(history: &mut History, world: &World) {
    history.settle(world);
    history.settle(world);
}

#[test]
fn an_inspector_nobody_touches_writes_nothing() {
    let mut world = World::new();
    world.editing = true;
    let mut history = History::default();
    let turned = Transform {
        position: triple(1.5, -2.0, 0.25),
        rotation: Quad { x: 0x3f00_0000, y: 0xbf00_0000, z: 0x3f00_0000, w: 0x3f00_0000 },
        scale: triple(1.0, 2.0, 0.5),
    };
    let entity = recorded(&mut world, turned);
    alter(&mut world, entity, |held| held.light = lit(LightKind::Spot));
    let body = put_body(&mut world, ShapeKind::Sphere, Handle::none(), true);
    world.scene.bodies.set_sheets(body, vec![vec![float(2.5), Value::Place(turned.scale)]]);
    let joint = world.scene.joints.spawn(
        "",
        Vec::new(),
        Joint { kind: JointKind::Weld, first: body, second: Handle::none() },
    );
    world.scene.joints.set_sheets(joint, vec![vec![Value::Turn(turned.rotation), float(4.0)]]);
    world.scene.sky = vec![Value::Word(1), Value::Color(triple(0.1, 0.2, 0.5)), Value::Bool(true)];

    for pick in [Pick::Nothing, Pick::Entity(entity), Pick::Body(body), Pick::Joint(joint)] {
        for section in detail(pick) {
            assert!(!panel(&mut world, &mut history, section, &[], pick, |_| {}), "{section:?}");
        }
    }
    close(&mut history, &world);
    assert_eq!(history.undoable(), None, "and nothing is written down");
    assert!(
        inspect(&vec![float(0.0)], &vec![float(-0.0)]).is_empty(),
        "nought below nought is nought"
    );
}

#[test]
fn a_number_stepped_on_what_is_shown_is_written_to_every_entity_picked() {
    let mut world = World::new();
    world.editing = true;
    let mut history = History::default();
    let shown = recorded(&mut world, at(0.0, 0.0, 0.0));
    let other = recorded(&mut world, at(5.0, 6.0, 7.0));
    let alone = recorded(&mut world, at(0.0, 0.0, 0.0));
    let picks = [shown, other, alone].map(Pick::Entity);
    let stands =
        |world: &World, id: EntityId| world.scene.entities.get(id).expect("alive").transform.position;

    assert!(panel(
        &mut world,
        &mut history,
        Section::Placing,
        &picks[1..2],
        picks[0],
        |now| now[0] = Value::Place(triple(0.25, 0.0, 0.0)),
    ));
    assert_eq!(
        stands(&world, shown),
        triple(0.25, 0.0, 0.0),
        "the number moved on the entity shown"
    );
    assert_eq!(
        stands(&world, other),
        triple(0.25, 6.0, 7.0),
        "and across on the entity picked with it, which keeps its own height and depth"
    );
    assert_eq!(stands(&world, alone), triple(0.0, 0.0, 0.0));
    close(&mut history, &world);
    assert_eq!(history.undoable(), Some("place"));

    assert!(panel(
        &mut world,
        &mut history,
        Section::Thrower,
        &picks[1..2],
        picks[0],
        |now| now[1] = float(0.25),
    ));
    let rates = row_of(&world, &picks, Section::Thrower, 1);
    assert!(rates[0].same(&float(0.25)), "an emitter's rate, stepped");
    assert!(
        rates[1].same(&float(0.25)) && rates[2].same(&float(0.0)),
        "on the emitter picked with it and not on the other"
    );

    assert!(panel(
        &mut world,
        &mut history,
        Section::Paint,
        &picks[1..2],
        picks[0],
        |now| now[1] = Value::Int(3),
    ));
    let orders = row_of(&world, &picks, Section::Paint, 1);
    assert!(
        orders[0].same(&Value::Int(3))
            && orders[1].same(&Value::Int(3))
            && orders[2].same(&Value::Int(0)),
        "and a decal's order, typed"
    );
}

#[test]
fn a_table_s_flag_ticked_on_what_is_shown_is_written_to_every_thing_of_its_kind_picked() {
    let mut world = World::new();
    world.editing = true;
    let mut history = History::default();
    let ids = [(); 3].map(|()| recorded(&mut world, Transform::unmoved()));
    let picks = ids.map(Pick::Entity);
    let mut ticked = |world: &mut World, section: Section, picks: &[Pick; 3], row: usize| {
        let from = truths(world, picks, section, row)[0];
        assert!(panel(world, &mut history, section, &picks[1..2], picks[0], |now| {
            now[row] = Value::Bool(!from);
        }));
        truths(world, picks, section, row)
    };

    assert_eq!(
        ticked(&mut world, Section::Lamp, &picks, 3),
        [false, false, true],
        "a lamp's shadow, on the lamp shown and the lamp picked with it"
    );
    assert_eq!(
        ticked(&mut world, Section::Land, &picks, 1),
        [true, true, false],
        "ground's, the same"
    );

    ticked(&mut world, Section::Painted, &picks, 0);
    assert_eq!(
        ids.map(|id| world.scene.entities.get(id).expect("alive").takes_decals),
        [false, false, true],
        "and whether decals paint it"
    );

    let stones = [(); 3].map(|()| put_body(&mut world, ShapeKind::Box, Handle::none(), false));
    ticked(&mut world, Section::Solid, &stones.map(Pick::Body), 3);
    assert_eq!(
        stones.map(|id| world.scene.bodies.get(id).expect("alive").sensor),
        [true, true, false],
        "a body's, on the bodies picked"
    );

    let ties = [(); 3].map(|()| {
        let weld = Joint { kind: JointKind::Weld, first: stones[0], second: stones[1] };
        let id = world.scene.joints.spawn("", Vec::new(), weld);
        world.scene.joints.set_sheets(id, vec![vec![Value::Bool(false)]]);
        Pick::Joint(id)
    });
    assert_eq!(
        ticked(&mut world, Section::Tie, &ties, 3),
        [true, true, false],
        "and a joint's"
    );
}

#[test]
fn each_tick_is_a_step_of_its_own_name() {
    let mut world = World::new();
    world.editing = true;
    let mut history = History::default();
    let id = recorded(&mut world, Transform::unmoved());

    panel(&mut world, &mut history, Section::Painted, &[], Pick::Entity(id), |now| {
        now[0] = Value::Bool(false);
    });
    close(&mut history, &world);
    assert_eq!(history.undoable(), Some("decals paint it"));

    panel(&mut world, &mut history, Section::Naming, &[], Pick::Entity(id), |now| {
        now[0] = Value::Text("lamp".to_owned());
    });
    close(&mut history, &world);
    assert_eq!(world.scene.entities.name(id), "lamp");
    assert_eq!(history.undoable(), Some("rename"));

    panel(&mut world, &mut history, Section::World, &[], Pick::Nothing, |now| {
        now[3] = Value::Place(triple(0.0, -9.0, 0.0));
    });
    close(&mut history, &world);
    assert_eq!(world.scene.stage.gravity, triple(0.0, -9.0, 0.0));
    assert_eq!(history.undoable(), Some("world"));
    assert_eq!(history.len(), 3);

    let back = history.undo(&world).expect("a step back");
    world.restore(&back);
    assert_eq!(world.scene.stage.gravity, triple(0.0, 0.0, 0.0));
}

#[test]
fn a_change_to_a_field_nothing_decides_by_is_a_step_back_all_the_same() {
    let mut world = World::new();
    world.editing = true;
    let mut history = History::default();
    let id = recorded(&mut world, Transform::unmoved());
    let tint = Value::Color(triple(1.0, 0.0, 0.0));

    assert!(panel(&mut world, &mut history, Section::Look, &[], Pick::Entity(id), |now| {
        now[2] = Value::Color(triple(1.0, 0.0, 0.0));
    }));
    close(&mut history, &world);
    assert_eq!(history.undoable(), Some("tint"));
    assert!(rows(&world, Pick::Entity(id), Section::Look)[2].same(&tint));

    let back = history.undo(&world).expect("a step back");
    world.restore(&back);
    assert!(!rows(&world, Pick::Entity(id), Section::Look)[2].same(&tint));

    let [Pick::Entity(copy)] = duplicate(&mut world, &vec![Pick::Entity(id)])[..] else {
        panic!("one copy");
    };
    assert!(
        rows(&world, Pick::Entity(copy), Section::Look)[2]
            .same(&Value::Color(triple(0.2, 0.7, 0.9))),
        "and a copy wears it"
    );
}

#[test]
fn a_world_that_differs_by_the_sign_of_nought_is_the_same_world() {
    let mut world = World::new();
    world.editing = true;
    let mut history = History::default();
    let id = spawn(&mut world, "", at(0.0, 0.0, 0.0));

    history.begin("place", &world);
    alter(&mut world, id, |held| held.transform = at(-0.0, 0.0, 0.0));
    close(&mut history, &world);
    assert_eq!(history.undoable(), None, "nought is nought");

    history.begin("place", &world);
    alter(&mut world, id, |held| held.transform = at(0.5, 0.0, 0.0));
    close(&mut history, &world);
    assert_eq!(history.undoable(), Some("place"));
}

#[test]
fn a_place_typed_on_a_driven_entity_takes_the_body_with_it() {
    let mut world = World::new();
    world.editing = true;
    let mut history = History::default();
    let car = spawn(&mut world, "", Transform::unmoved());
    let under = put_body(&mut world, ShapeKind::Box, car, false);
    let there = triple(2.0, 0.0, 0.0);

    assert!(panel(&mut world, &mut history, Section::Placing, &[], Pick::Entity(car), |now| {
        now[0] = Value::Place(triple(2.0, 0.0, 0.0));
    }));
    assert_eq!(world.scene.entities.get(car).expect("alive").transform.position, there);
    assert_eq!(world.scene.bodies.get(under).expect("alive").transform.position, there);

    assert!(panel(&mut world, &mut history, Section::Placing, &[], Pick::Body(under), |now| {
        now[0] = Value::Place(triple(-1.0, 0.0, 0.0));
    }));
    assert_eq!(
        world.scene.entities.get(car).expect("alive").transform.position,
        triple(-1.0, 0.0, 0.0)
    );
}

#[test]
fn a_place_typed_on_a_hung_entity_is_its_own_and_the_body_s_is_the_world_s() {
    let mut world = World::new();
    world.editing = true;
    let mut history = History::default();
    let car = spawn(&mut world, "", at(10.0, 0.0, 0.0));
    let wheel = spawn(&mut world, "", Transform::unmoved());
    assert!(set_parent(&mut world.scene.entities, wheel, car));
    let under = put_body(&mut world, ShapeKind::Sphere, wheel, false);
    let mut now = rows(&world, Pick::Entity(wheel), Section::Placing);
    now[0] = Value::Place(triple(1.0, 0.0, 0.0));
    let mut write = |places: &Vec<(Pick, Transform)>| {
        write_section(
            &mut world,
            &mut history,
            Pick::Entity(wheel),
            &Vec::new(),
            Section::Placing,
            &now,
            places,
        )
    };

    assert!(write(&vec![(Pick::Entity(wheel), at(11.0, 0.0, 0.0))]));
    assert_eq!(
        world.scene.entities.get(wheel).expect("alive").transform.position,
        triple(1.0, 0.0, 0.0)
    );
    assert_eq!(
        world.scene.bodies.get(under).expect("alive").transform.position,
        triple(11.0, 0.0, 0.0)
    );
    assert_eq!(parent(&world.scene.entities, wheel), car, "and hangs where it hung");
}

#[test]
fn a_material_is_changed_and_not_written_down() {
    let mut world = World::new();
    world.editing = true;
    let mut history = History::default();
    let brass = world.materials.insert("materials/brass", false);
    world.materials.set_sheet(brass, vec![float(0.5), Value::Texture(0)]);

    assert!(panel(&mut world, &mut history, Section::Coat, &[], Pick::Material(brass), |now| {
        now[0] = float(0.75);
    }));
    assert!(world.materials.sheet(brass)[0].same(&float(0.75)));
    close(&mut history, &world);
    assert_eq!(history.undoable(), None, "a material is a file");
}

#[test]
fn a_place_changed_on_an_entity_is_not_written_to_a_body_picked_beside_it() {
    let mut world = World::new();
    world.editing = true;
    let mut history = History::default();
    let crate_ = spawn(&mut world, "", Transform::unmoved());
    let stone = put_body(&mut world, ShapeKind::Box, Handle::none(), false);
    let mut held = world.scene.bodies.get(stone).expect("alive");
    held.transform = at(5.0, 0.0, 0.0);
    world.scene.bodies.set(stone, held);

    assert!(panel(
        &mut world,
        &mut history,
        Section::Placing,
        &[Pick::Body(stone)],
        Pick::Entity(crate_),
        |now| now[0] = Value::Place(triple(0.25, 0.0, 0.0)),
    ));

    let moved = world.scene.entities.get(crate_).expect("alive").transform.position.x;
    assert!(f32::from_bits(moved) > 0.0, "the entity shown moved");
    assert_eq!(
        world.scene.bodies.get(stone).expect("alive").transform.position,
        triple(5.0, 0.0, 0.0),
        "and the body picked beside it did not"
    );
}

#[test]
fn a_reference_into_the_world_is_still_left_out_of_the_table() {
    let mut world = World::new();
    let id = put_body(&mut world, ShapeKind::Mesh, Handle::none(), false);
    let body = rows(&world, Pick::Body(id), Section::Solid);
    let shown: Vec<bool> = body.iter().map(has_row).collect();

    assert!(matches!(body[2], Value::Mesh(_)) && shown[2], "a mesh is an asset and has a row");
    assert!(
        matches!(body[5], Value::Entity(_)) && !shown[5],
        "the entity it drives is picked in the picture, not typed"
    );
    let mut history = History::default();
    assert!(!panel(&mut world, &mut history, Section::Solid, &[], Pick::Body(id), |now| {
        now[5] = Value::Entity(Handle { slot: 9, generation: 9 });
    }));
}

#[test]
fn a_name_typed_a_letter_at_a_time_reaches_the_handle() {
    let mut world = World::new();
    world.textures.insert("rust", true);
    let mut value = Value::Texture(0);

    for typed in ["r", "ru", "rus"] {
        assert!(!resolve(&world, typed, &mut value));
        assert_eq!(reference(&world, &value, true, Some(typed)), typed, "kept while typed");
    }
    assert!(resolve(&world, "rust", &mut value));
    assert!(
        value.same(&Value::Texture(world.textures.find("rust"))),
        "four keystrokes over four frames spell a name the registry knows"
    );
}

#[test]
fn a_half_typed_name_is_put_back_when_the_row_loses_the_keyboard() {
    let mut world = World::new();
    let cube = world.meshes.insert("cube", true);
    let mut value = Value::Mesh(cube);

    assert!(!resolve(&world, "cub", &mut value));
    assert!(
        value.same(&Value::Mesh(cube)),
        "a name that is not one leaves the handle where it was"
    );
    assert_eq!(
        reference(&world, &value, false, Some("cub")),
        "cube",
        "the row is back to what the handle really says, and the half-typed name is gone"
    );
    assert_eq!(reference(&world, &value, true, None), "cube");
}

#[test]
fn a_lamps_row_says_what_it_shines_where_a_pieces_says_what_it_is_made_of() {
    let mut world = World::new();
    let mesh = world.meshes.insert("models/lamp/shade", true);
    let piece = |name: &str, mesh: u32, light: Light| Placement {
        name: name.to_owned(),
        mesh,
        material: 0,
        transform: Transform::unmoved(),
        light,
    };
    let dark = Light { kind: LightKind::Dark, range: 0, outer: 0 };

    assert_eq!(
        piece_row(&world, &piece("bulb", 0, lit(LightKind::Spot)), "models/lamp/"),
        ("bulb".to_owned(), "spot lamp".to_owned(), String::new()),
        "a lamp's kind in the mesh's column, and nothing worn"
    );
    assert_eq!(
        piece_row(&world, &piece("shade", mesh, dark), "models/lamp/").1,
        "shade",
        "while a piece of geometry names its mesh, as it always did"
    );
}

#[test]
fn a_models_own_name_comes_off_what_it_names_and_a_strangers_does_not() {
    assert_eq!(within("models/lamp/column", "models/lamp/"), "column");
    assert_eq!(
        within("materials/brass", "models/lamp/"),
        "materials/brass",
        "a material from outside the model keeps the whole of itself, which is the one \
         worth reading in full"
    );
    assert_eq!(within("", "models/lamp/"), "", "and a handle to nothing stays nothing");
}

#[test]
fn a_count_reads_as_english() {
    assert_eq!(counted(0, "piece"), "0 pieces");
    assert_eq!(counted(1, "piece"), "1 piece");
    assert_eq!(counted(5, "piece"), "5 pieces");
}

#[test]
fn what_waits_for_a_record_is_counted_by_it() {
    let records: Vec<String> =
        ["door", "lift", "door"].iter().map(|record| record.to_string()).collect();
    let kept = waiting(&records);

    assert_eq!(kept.len(), 2);
    assert_eq!((kept[0].record.as_str(), kept[0].many), ("door", 2));
    assert_eq!(
        waiting_line(&kept[0]),
        "door: 2 values kept for a record nobody has declared"
    );
    assert_eq!(standing_line(1), "1 piece standing");
}

#[test]
fn the_panel_draws_what_the_kind_of_thing_has() {
    let id = Handle { slot: 0, generation: 1 };

    assert_eq!(detail(Pick::Nothing), vec![Section::World]);
    assert_eq!(detail(Pick::Joint(id)), vec![Section::Naming, Section::Tie]);
    assert_eq!(detail(Pick::Entity(id)).len(), 10);
    assert_eq!(step(Section::Look), Some("tint"));
    assert_eq!(step(Section::Coat), None, "a material is a file");
    assert_eq!(heading(1), None);
    assert!(heading(3).is_some_and(|words| words.starts_with("3 selected")));
    assert_ne!(footing(true), footing(false));
    assert_eq!(word_shown(&vec!["none", "point"], 1), "point");
    assert_eq!(word_shown(&vec!["none", "point"], 7), "?");
}

#[test]
fn a_joint_is_said_by_what_it_holds() {
    let (mut world, car, wheel) = yard();
    let first = world.scene.bodies.ids()[0];
    world.scene.bodies.set_name(first, "axle");
    let rope = world.scene.joints.spawn(
        "",
        Vec::new(),
        Joint { kind: JointKind::Rope, first, second: Handle::none() },
    );

    assert_eq!(
        tie(&world, rope),
        Some(("axle".to_owned(), "a point in the world".to_owned()))
    );
    assert_eq!(tie(&world, Handle::none()), None);
    assert_eq!(body_line(&world, first), "a static sphere");
    assert_eq!(body_line(&world, Handle::none()), "gone");
    assert_eq!(hanging(&world, wheel), Some("car".to_owned()));
    assert_eq!(hanging(&world, car), None);
}

#[test]
fn what_stands_beside_a_source_is_shown_or_offered() {
    assert!(matches!(guiding("m", false, true, None), Guide::Weak(_)));
    assert!(matches!(guiding("m", true, false, None), Guide::Weak(_)));
    assert!(matches!(guiding("m", true, true, Some(" x \n")), Guide::Text(text) if text == "x"));
    assert!(matches!(
        guiding("models/lamp", true, true, None),
        Guide::Start(_, line) if line == "model.write models/lamp"
    ));
    assert_eq!(write_material(""), None);
    assert_eq!(write_material("brass"), Some("material.write brass".to_owned()));
}

#[test]
fn a_record_field_ticked_on_what_is_shown_is_written_to_every_entity_picked_as_one_step() {
    let mut world = World::new();
    world.editing = true;
    let mut history = History::default();
    let ids = [(); 4].map(|()| recorded(&mut world, Transform::unmoved()));
    let picks = ids.map(Pick::Entity);

    assert!(panel(
        &mut world,
        &mut history,
        Section::Records,
        &picks[1..3],
        picks[0],
        |now| now[0] = Value::Bool(true),
    ));

    let covering = truths(&world, &picks, Section::Records, 0);
    assert!(covering[0], "the brick shown covers");
    assert!(covering[1] && covering[2], "and so does every brick picked with it");
    assert!(!covering[3], "and nothing that was not picked");

    // the frame that wrote, and the first one nobody wrote in, which closes it
    history.settle(&world);
    history.settle(&world);
    assert_eq!(history.undoable(), Some("record"), "as one step back");
    assert_eq!(history.len(), 1);

    let back = history.undo(&world).expect("a step back");
    world.restore(&back);
    assert_eq!(truths(&world, &picks, Section::Records, 0), [false; 4]);
}

#[test]
fn an_entity_s_mesh_typed_in_the_panel_reaches_every_entity_picked() {
    let mut world = World::new();
    world.editing = true;
    let mut history = History::default();
    let cube = world.meshes.insert("cube", true);
    let ids = [(); 3].map(|()| spawn(&mut world, "", Transform::unmoved()));
    let picks = ids.map(Pick::Entity);
    let mesh = |world: &World, id: EntityId| world.scene.entities.get(id).expect("alive").mesh;

    for typed in ["c", "cu", "cub", "cube"] {
        let mut named = rows(&world, picks[0], Section::Look).swap_remove(0);
        resolve(&world, typed, &mut named);
        panel(&mut world, &mut history, Section::Look, &picks[1..2], picks[0], |now| {
            now[0] = named.copy();
        });
    }

    assert_eq!(mesh(&world, ids[0]), cube, "the entity shown is made of it");
    assert_eq!(mesh(&world, ids[1]), cube, "and so is the one picked with it");
    assert_eq!(mesh(&world, ids[2]), 0, "and the one nobody picked is left alone");
}

#[test]
fn a_hit_at_minus_nought_is_a_hit() {
    let ids = vec![Handle { slot: 0, generation: 1 }, Handle { slot: 1, generation: 1 }];
    let far = |away: f32| Some(away.to_bits());

    assert_eq!(aim::under(&ids, &vec![far(2.0), far(-0.0)]), Pick::Entity(ids[1]));
    assert_eq!(aim::under(&ids, &vec![far(f32::NAN), far(3.0)]), Pick::Entity(ids[1]));
    assert_eq!(aim::under(&ids, &vec![far(0.0), far(-0.0)]), Pick::Entity(ids[0]), "the first");
    assert_eq!(aim::under(&ids, &vec![None, far(f32::INFINITY)]), Pick::Nothing);
}

#[test]
fn a_camera_that_differs_by_the_sign_of_nought_is_as_it_was_left() {
    let looks = |x: f32| Camera {
        position: triple(x, 1.0, 2.0),
        target: triple(0.0, 0.0, 0.0),
        up: triple(0.0, 1.0, 0.0),
        fov: 1.0f32.to_bits(),
    };
    let orbit = |yaw: f32| Fly {
        target: triple(0.0, 0.0, 0.0),
        yaw: yaw.to_bits(),
        pitch: 0,
        distance: 4.0f32.to_bits(),
    };
    let held = Looking { orbit: orbit(1.0), wrote: looks(0.0) };

    assert_eq!(Looking::taken(Some(held), looks(-0.0), orbit(2.0)), held);
    assert_eq!(Looking::taken(Some(held), looks(0.5), orbit(2.0)).orbit, orbit(2.0));
}

#[test]
fn what_strews_paints_the_ground_it_hangs_off() {
    let mut world = World::new();
    let ground = drawn(&mut world, Transform::unmoved());
    let grass = spawn(&mut world, "", Transform::unmoved());

    assert_eq!(ground_under(&world, grass, true), None, "it hangs off nothing");
    assert!(set_parent(&mut world.scene.entities, grass, ground));
    assert_eq!(ground_under(&world, grass, true), Some(ground));
    assert_eq!(ground_under(&world, grass, false), None, "an entity that strews nothing");
    alter(&mut world, ground, |held| held.mesh = 0);
    assert_eq!(ground_under(&world, grass, true), None, "and one with no mesh to paint");
}
