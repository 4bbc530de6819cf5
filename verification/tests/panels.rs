use colby_editor::bake::{self, Face, Place, Walls};
use colby_editor::bar::{mode, step_label, tool_label, Bar};
use colby_editor::catalog::Kind;
use colby_editor::change::Change;
use colby_editor::editor::{points, Editor, Start, GRID, GRID_STEP, HELPERS, SHOW};
use colby_editor::frame::{gather, look, press, Click};
use colby_editor::gizmo::Tool;
use colby_editor::group::{grouped, is_group};
use colby_editor::make::block;
use colby_editor::paint::{Stroke, WIDEST};
use colby_editor::panels::{stepped, Key, Pane, Panels, Press, Request, UNNAMED};
use colby_editor::select::Pick;
use colby_editor::session::{Session, Sizes};
use colby_editor::table::Handle;
use colby_editor::tree::{parent, set_parent, shown};
use colby_editor::world::{Entity, EntityId, Scene, Transform, Triple, World};

/// Three fractions, by their bits.
fn triple(x: f32, y: f32, z: f32) -> Triple {
    Triple { x: x.to_bits(), y: y.to_bits(), z: z.to_bits() }
}

/// Standing somewhere.
fn at(x: f32, y: f32, z: f32) -> Transform {
    Transform::at(triple(x, y, z))
}

/// A thing standing somewhere.
fn spawn(world: &mut World, name: &str, standing: Transform) -> EntityId {
    world.scene.entities.spawn(name, Vec::new(), Entity::plain(standing))
}

/// Where a thing stands in its own terms.
fn stands(world: &World, id: EntityId) -> Triple {
    world.scene.entities.get(id).expect("alive").transform.position
}

/// A world being edited, with nothing in it.
fn edited() -> World {
    let mut world = World::new();
    world.editing = true;

    world
}

/// One frame with these keys pressed in it. What was asked for, in order.
fn frame_with(panels: &mut Panels, world: &mut World, pressed: Vec<Press>) -> Vec<Request> {
    look(panels, world, None);
    let mut queue = gather(panels, Vec::new(), &Vec::new(), false, &pressed, Vec::new());
    let mut asked = Vec::new();
    while let Some(request) = press(panels, world, &mut queue) {
        asked.push(request);
    }
    panels.finish(world, Sizes::default());

    asked
}

/// One frame with nothing pressed.
fn frame(panels: &mut Panels, world: &mut World) {
    frame_with(panels, world, Vec::new());
}

/// One key, with command held and with shift.
fn key(key: Key, command: bool, shift: bool) -> Vec<Press> {
    vec![Press { key, command, shift }]
}

#[test]
fn the_profiler_pane_being_up_is_the_whole_of_the_gate() {
    let mut panels = Panels::default();

    assert!(!panels.measuring(), "the console is up, and nothing is being measured");

    for pane in [Pane::Statistics, Pane::Assets, Pane::Settings] {
        panels.pane = pane;

        assert!(!panels.measuring(), "{} costs nothing", pane.name());
    }

    panels.pane = Pane::Profiler;

    assert!(panels.measuring(), "and the one pane that does say so");
}

#[test]
fn a_frame_with_the_profiler_up_draws_it_and_asks_to_be_measured() {
    let mut editor = Editor::new();
    let mut world = World::new();
    editor.panels.pane = Pane::Profiler;

    frame(&mut editor.panels, &mut world);
    let came = editor.run();

    assert!(came.measuring, "and it is still asking after a frame of it");
    assert!(came.restore.is_none());
}

#[test]
fn every_pane_has_a_name_of_its_own() {
    let named =
        [Pane::Console, Pane::Statistics, Pane::Assets, Pane::Settings, Pane::Profiler];
    let mut names: Vec<&str> = named.iter().map(|pane| pane.name()).collect();

    names.sort_unstable();
    names.dedup();

    assert_eq!(names.len(), named.len(), "two panes share a name");
}

/// The six faces of every block, told apart by where they are.
fn faces(world: &World) -> Vec<Walls> {
    let ids = bake::gathered(world, &Vec::new());

    ids.into_iter()
        .map(|block| {
            let faces = [0i64, 1, 2, 3, 4, 5].map(|face| {
                let key = bake::Key { x: i64::from(block.slot), y: face, z: 0 };
                let corner = triple(0.0, 0.0, 0.0);

                Face {
                    place: Place { middle: key, first: key, second: key, third: key, fourth: key },
                    normal: triple(0.0, 1.0, 0.0),
                    first: corner,
                    second: corner,
                    third: corner,
                    fourth: corner,
                }
            });

            Walls { block, faces }
        })
        .collect()
}

#[test]
fn a_bake_is_named_by_the_last_part_of_the_write_field() {
    let mut panels = Panels::default();
    let mut world = World::new();
    block(&mut world, at(0.0, 0.5, 0.0));

    let walls = faces(&world);
    let asked = panels.apply(&mut world, &Change::Bake("scenes/room".to_owned(), walls));

    assert_ne!(
        world.meshes.find("maps/room/default"),
        0,
        "the mesh is under the room, not under a directory called scenes"
    );
    assert_eq!(
        world.meshes.find("maps/scenes/room/default"),
        0,
        "and not under the whole of the field"
    );
    assert!(matches!(asked, Some(Request::Run(line)) if line == "blocks.write room"));
}

#[test]
fn a_bake_with_no_name_bakes_nothing() {
    let mut panels = Panels::default();
    let mut world = World::new();
    block(&mut world, at(0.0, 0.5, 0.0));

    let before = world.scene.entities.len();

    let walls = faces(&world);
    assert!(panels.apply(&mut world, &Change::Bake("   ".to_owned(), walls)).is_none());

    assert_eq!(
        world.scene.entities.len(),
        before,
        "the blocks are still blocks, because a bake with no name has nowhere to be written"
    );
}

#[test]
fn asking_for_water_puts_a_pool_in_front_of_the_camera_and_selects_it() {
    let mut world = edited();
    let mut panels = Panels::default();

    frame(&mut panels, &mut world);
    panels.apply(&mut world, &Change::Water { standing: at(0.0, 0.0, 4.0), material: 0 });

    let id = world.scene.bodies.ids()[0];
    let body = world.scene.bodies.get(id).expect("a pool was made");

    assert!(body.wet, "which nothing is pushed out of");
    assert!(body.entity.is_some(), "and it drives something to look at");
    assert_eq!(world.scene.bodies.len(), 1, "one body and no more");
    assert!(
        panels.selection.is(Pick::Entity(body.entity)),
        "and what was made is what is selected"
    );

    // and it is a step, so it can be taken back
    panels.apply(&mut world, &Change::Undo);
    let put_back = panels.take_restore().expect("an undo hands a world back");
    world.restore(&put_back);

    assert!(
        world.scene.bodies.get(id).is_none(),
        "a pool put down by mistake is one step back, like everything else"
    );
}

#[test]
fn opening_a_scene_that_never_compiled_leaves_the_tabs_where_they_are() {
    let mut world = edited();
    let mut panels = Panels::default();

    let asked = panels.apply(&mut world, &Change::Open("scenes/never".to_owned()));
    assert!(matches!(asked, Some(Request::Open(name)) if name == "scenes/never"));
    panels.reach(&world, "scenes/never", None);

    assert_eq!(panels.names().len(), 1, "no tab for a name the registry does not know");
    assert_eq!(panels.scene, UNNAMED);
    assert!(panels.restore.is_none(), "and no world to put back");
}

/// A described world with so many things in it.
fn described(many: u8) -> Scene {
    let mut world = World::new();
    for step in 0..many {
        spawn(&mut world, "", at(f32::from(step), 0.0, 0.0));
    }

    world.scene
}

/// Puts back the world the panels ask for.
fn put_back(panels: &mut Panels, world: &mut World) {
    let described = panels.take_restore().expect("a world to put back");
    world.restore(&described);
}

/// Two scenes open, the second of them on screen with nothing done to it, and
/// a step to take back in the first.
fn two_open() -> (World, Panels) {
    let mut world = edited();
    let mut panels = Panels::default();
    panels.apply(&mut world, &Change::Block(Transform::unmoved()));
    frame(&mut panels, &mut world);
    frame(&mut panels, &mut world);
    assert_eq!(panels.history.undoable(), Some("block"));

    panels.reach(&world, "scenes/yard", Some(&described(3)));
    put_back(&mut panels, &mut world);

    (world, panels)
}

#[test]
fn a_scene_that_is_opened_comes_on_screen_with_nothing_to_take_back() {
    let (world, panels) = two_open();

    assert_eq!(panels.names(), vec![UNNAMED.to_owned(), "scenes/yard".to_owned()]);
    assert_eq!((panels.scene.as_str(), panels.place), ("scenes/yard", 1));
    assert_eq!(world.scene.entities.len(), 3, "the compiled scene is the world");
    assert_eq!(panels.history.undoable(), None, "and its past is its own");
}

#[test]
fn there_and_back_leaves_every_scene_with_its_own_steps() {
    let (mut world, mut panels) = two_open();

    panels.apply(&mut world, &Change::Show(0));
    put_back(&mut panels, &mut world);
    assert_eq!((panels.scene.as_str(), panels.place), (UNNAMED, 0));
    assert_eq!(world.scene.entities.len(), 1, "the block is where it was left");
    assert_eq!(panels.history.undoable(), Some("block"));

    panels.apply(&mut world, &Change::Show(1));
    put_back(&mut panels, &mut world);
    assert_eq!(world.scene.entities.len(), 3);
    assert_eq!(panels.history.undoable(), None);
    assert_eq!(panels.names(), vec![UNNAMED.to_owned(), "scenes/yard".to_owned()]);

    panels.apply(&mut world, &Change::Show(1));
    assert!(panels.restore.is_none(), "the one on screen already");
    panels.apply(&mut world, &Change::Show(2));
    assert!(panels.restore.is_none(), "and nothing past the end of the row");
    assert_eq!(panels.place, 1);
}

#[test]
fn opening_an_open_scene_moves_to_it() {
    let (mut world, mut panels) = two_open();

    panels.reach(&world, UNNAMED, Some(&described(9)));
    put_back(&mut panels, &mut world);
    assert_eq!(world.scene.entities.len(), 1, "as it was left and not as it was compiled");
    assert_eq!(panels.names().len(), 2, "and no second tab");

    panels.reach(&world, UNNAMED, Some(&described(9)));
    assert!(panels.restore.is_none(), "the one on screen stays as it is");
}

#[test]
fn a_scene_that_is_shut_gives_way_and_the_last_one_stays() {
    let (mut world, mut panels) = two_open();

    panels.apply(&mut world, &Change::Shut(1));
    put_back(&mut panels, &mut world);
    assert_eq!(panels.names(), vec![UNNAMED.to_owned()]);
    assert_eq!(panels.history.undoable(), Some("block"), "the one before it is on screen");

    panels.apply(&mut world, &Change::Shut(0));
    assert_eq!(panels.names(), vec![UNNAMED.to_owned()], "the last one stays open");
    assert!(panels.restore.is_none());

    let (mut world, mut panels) = two_open();
    panels.apply(&mut world, &Change::Shut(0));
    assert!(panels.restore.is_none(), "another one goes without a word");
    assert_eq!((panels.scene.as_str(), panels.place), ("scenes/yard", 0));
    assert_eq!(panels.names().len(), 1);
}

#[test]
fn a_scene_opened_again_does_not_come_on_screen() {
    let mut world = edited();
    let mut panels = Panels::default();

    let asked = panels.apply(&mut world, &Change::Reopen("scenes/hangar".to_owned()));
    assert!(matches!(asked, Some(Request::Reopen(name)) if name == "scenes/hangar"));
    panels.shelve(&world, "scenes/hangar", Some(&described(2)));
    panels.shelve(&world, "scenes/hangar", Some(&described(2)));
    panels.shelve(&world, "scenes/never", None);

    assert_eq!(panels.names(), vec![UNNAMED.to_owned(), "scenes/hangar".to_owned()]);
    assert_eq!((panels.scene.as_str(), panels.place), (UNNAMED, 0));
    assert!(panels.restore.is_none(), "the window stays where it is");

    panels.apply(&mut world, &Change::Show(1));
    put_back(&mut panels, &mut world);
    assert_eq!(world.scene.entities.len(), 2);
}

#[test]
fn the_one_that_was_on_screen_is_moved_to_once_none_waits() {
    let mut world = edited();
    let mut editor = Editor::new();
    let session = Session {
        tabs: ["yard", "hangar", "court"].map(str::to_owned).to_vec(),
        current: 1,
        panels: Sizes::default(),
    };
    editor.remember(&session, "yard");

    for (name, on_screen) in [("hangar", "yard"), ("court", "hangar")] {
        assert!(editor.panels.catching_up(&vec![name.to_owned()]).is_some());
        editor.panels.shelve(&world, name, Some(&described(2)));
        assert_eq!(editor.panels.scene, on_screen);
    }
    assert_eq!(editor.panels.names(), session.tabs);
    assert_eq!(editor.panels.wanted, None);
    put_back(&mut editor.panels, &mut world);
    assert_eq!(world.scene.entities.len(), 2);

    editor.remember(&session, "hangar");
    assert_eq!(editor.panels.wanted, None, "the window came up on it");
}

#[test]
fn a_rename_follows_a_tab_that_is_not_on_screen() {
    let (mut world, mut panels) = two_open();
    panels.apply(&mut world, &Change::Show(0));

    panels.apply(
        &mut world,
        &Change::RenameAsset("scenes/yard".to_owned(), "court".to_owned()),
    );

    assert_eq!(panels.names(), vec![UNNAMED.to_owned(), "scenes/court".to_owned()]);
}

#[test]
fn an_editor_starts_with_nothing_done() {
    for panels in [Panels::new(), Panels::default(), Editor::new().panels] {
        assert!(panels.selection.picks().is_empty());
        assert_eq!((panels.history.undoable(), panels.history.redoable()), (None, None));
        assert!(!panels.history.holding());
        assert_eq!(panels.names(), vec![UNNAMED.to_owned()]);
        assert_eq!((panels.pane, panels.tool), (Pane::Console, Tool::Move));
        assert_eq!(panels.sizes, Sizes::default());
        assert!(!panels.brushing && !panels.rename && !panels.was_editing);
        assert!(panels.restore.is_none() && panels.waiting.is_empty());
        assert_eq!(panels.stroke, Stroke { radius: 4.0f32.to_bits(), strength: 0.35f32.to_bits() });
    }
}

#[test]
fn a_scene_the_last_run_had_open_waits_for_the_compiler_to_catch_up() {
    let mut panels = Panels::default();
    panels.waiting = vec!["scenes/hangar".to_owned()];

    assert!(panels.catching_up(&Vec::new()).is_none(), "nothing to open yet");
    assert_eq!(panels.waiting.len(), 1, "and the name is still waiting");

    let asked = panels.catching_up(&vec!["scenes/hangar".to_owned()]);

    assert!(
        matches!(asked, Some(Change::Reopen(name)) if name == "scenes/hangar"),
        "now it can be opened"
    );
    assert!(panels.waiting.is_empty(), "and it is off the list");
}

#[test]
fn asking_for_a_source_leaves_a_console_line_for_the_runner() {
    let mut world = World::new();
    let mut panels = Panels::default();

    let asked = panels.apply(&mut world, &Change::Code("scripts/thruster".to_owned()));

    assert!(
        matches!(asked, Some(Request::Run(line)) if line == "code.open scripts/thruster"),
        "one line waiting for the frame loop"
    );
}

#[test]
fn renaming_an_asset_leaves_a_console_line_and_moves_the_tab_that_was_open_on_it() {
    let mut world = World::new();
    let mut panels = Panels::default();
    panels.scene = "scenes/yard".to_owned();

    let asked = panels.apply(
        &mut world,
        &Change::RenameAsset("scenes/yard".to_owned(), "court".to_owned()),
    );

    assert!(
        matches!(asked, Some(Request::Run(line)) if line == "asset.rename scenes/yard court"),
        "one line waiting for the frame loop"
    );
    assert_eq!(panels.scene, "scenes/court", "and the tab is called what the file is called");
}

#[test]
fn baking_the_light_leaves_a_line_named_by_the_last_part_of_the_write_field() {
    let mut world = edited();
    let mut panels = Panels::default();

    let asked = panels.apply(&mut world, &Change::Light("scenes/yard".to_owned()));

    assert!(
        matches!(asked, Some(Request::Run(line)) if line == "light.bake yard"),
        "the room, not the directory"
    );
    assert_eq!(panels.scene, "yard", "and the tab is the scene it writes");

    assert!(
        panels.apply(&mut world, &Change::Light("   ".to_owned())).is_none(),
        "a bake with no name asks for nothing"
    );
}

#[test]
fn a_write_renames_the_tab_it_was_written_from() {
    let mut world = edited();
    let mut panels = Panels::default();

    let asked = panels.apply(&mut world, &Change::Write("scenes/yard".to_owned()));

    assert_eq!(panels.scene, "scenes/yard", "a write is a save-as");
    assert!(matches!(asked, Some(Request::Run(line)) if line == "scene.write scenes/yard"));
}

/// A world with one thing hung off another and a ball above the floor, with
/// that hang already a record.
fn hung() -> (World, Panels, EntityId) {
    let mut world = edited();
    let car = spawn(&mut world, "", at(1.0, 0.0, 0.0));
    let wheel = spawn(&mut world, "", at(0.0, 0.0, 1.0));
    let ball = spawn(&mut world, "", at(0.0, 1.0, 0.0));
    let mut panels = Panels::default();
    panels.apply(
        &mut world,
        &Change::Hang { child: wheel, parent: car, inside: at(-1.0, 0.0, 1.0) },
    );
    frame(&mut panels, &mut world);
    frame(&mut panels, &mut world);

    (world, panels, ball)
}

/// Moves a thing, the way a game does every step it runs.
fn shift(world: &mut World, id: EntityId, to: Triple) {
    let mut held = world.scene.entities.get(id).expect("alive");
    held.transform.position = to;
    world.scene.entities.set(id, held);
}

/// Where an unturned thing stands in the world: what it hangs off, and where
/// it stands inside that.
fn placed(world: &World, id: EntityId) -> [f32; 3] {
    let held = world.scene.entities.get(id).expect("alive");
    let inside = [held.transform.position.x, held.transform.position.y, held.transform.position.z]
        .map(f32::from_bits);
    if !held.parent.is_some() {
        return inside;
    }
    let around = placed(world, held.parent);

    [around[0] + inside[0], around[1] + inside[1], around[2] + inside[2]]
}

/// Where an unturned thing stands seen from another.
fn seen_from(world: &World, id: EntityId, other: EntityId) -> Transform {
    let (here, there) = (placed(world, id), placed(world, other));

    at(here[0] - there[0], here[1] - there[1], here[2] - there[2])
}

#[test]
fn a_press_is_applied_to_the_world_in_one_place() {
    let mut world = World::new();
    let car = spawn(&mut world, "", at(1.0, 0.0, 0.0));
    let wheel = spawn(&mut world, "", at(3.0, 0.0, 0.0));
    let mut panels = Panels::default();

    panels.apply(&mut world, &Change::Select(Pick::Entity(wheel)));
    assert!(panels.selection.is(Pick::Entity(wheel)));

    let inside = seen_from(&world, wheel, car);
    panels.apply(&mut world, &Change::Hang { child: wheel, parent: car, inside });
    assert_eq!(parent(&world.scene.entities, wheel), car, "the wheel hangs off the car");
    assert_eq!(
        placed(&world, wheel),
        [3.0, 0.0, 0.0],
        "and stayed where it was in the world"
    );

    panels.apply(&mut world, &Change::Tool(Tool::Turn));
    assert_eq!(panels.tool, Tool::Turn);

    panels.apply(&mut world, &Change::Brush(true));
    assert!(panels.brushing, "the brush is out");
    panels.apply(&mut world, &Change::Tool(Tool::Move));
    assert!(!panels.brushing, "and asking for the gizmo puts it away");

    let stroke = |radius: f32, strength: f32| Change::Stroke {
        radius: radius.to_bits(),
        strength: strength.to_bits(),
    };
    let stroke_of = |panels: &Panels| {
        (f32::from_bits(panels.stroke.radius), f32::from_bits(panels.stroke.strength))
    };
    panels.apply(&mut world, &stroke(9.0, 0.5));
    assert_eq!(stroke_of(&panels), (9.0, 0.5), "the brush takes both numbers");
    panels.apply(&mut world, &stroke(1.0e9, 4.0));
    assert_eq!(
        stroke_of(&panels),
        (f32::from_bits(WIDEST), 1.0),
        "and holds each inside what it may be"
    );
    panels.apply(&mut world, &stroke(-1.0, -0.5));
    assert_eq!(stroke_of(&panels), (0.25, 0.0));

    let asked = panels.apply(&mut world, &Change::Edit(true));
    assert!(matches!(asked, Some(Request::Mode(true))), "play and stop go through the variable");
}

#[test]
fn a_hang_is_undone_by_the_world_the_frame_hands_back() {
    let mut world = edited();
    let car = spawn(&mut world, "car", at(1.0, 0.0, 0.0));
    let wheel = spawn(&mut world, "wheel", at(3.0, 0.0, 0.0));
    let mut panels = Panels::default();

    panels.apply(
        &mut world,
        &Change::Hang { child: wheel, parent: car, inside: at(2.0, 0.0, 0.0) },
    );
    // two quiet frames: the one the hang was written in, and the one that
    // closes the record
    assert!(!panels.history.settle(&world));
    assert!(panels.history.settle(&world), "the hang is a record");
    assert_eq!(panels.history.undoable(), Some("hang"));

    panels.apply(&mut world, &Change::Undo);
    let described = panels.take_restore().expect("a world to put back");
    world.restore(&described);

    assert!(
        !parent(&world.scene.entities, wheel).is_some(),
        "the wheel stands on its own again"
    );
    assert_eq!(stands(&world, wheel), triple(3.0, 0.0, 0.0), "where it was");
    assert!(world.scene.entities.alive(wheel), "and its handle still resolves");
    assert_eq!(panels.history.redoable(), Some("hang"), "and the hang can be done again");
}

#[test]
fn a_hide_from_the_tree_is_one_step_and_is_undone_like_any_other() {
    let mut world = edited();
    let car = spawn(&mut world, "", at(1.0, 0.0, 0.0));
    let wheel = spawn(&mut world, "", at(0.0, 0.0, 1.0));
    assert!(set_parent(&mut world.scene.entities, wheel, car));
    let mut panels = Panels::default();

    panels.apply(&mut world, &Change::Hide { entity: car, hidden: true });

    assert!(
        !shown(&world.scene.entities, wheel),
        "the car is hidden, and the wheel under it"
    );
    assert!(!panels.history.settle(&world));
    assert!(panels.history.settle(&world), "the hide is a record");
    assert_eq!(panels.history.undoable(), Some("hide"));

    panels.apply(&mut world, &Change::Undo);
    let described = panels.take_restore().expect("a world to put back");
    world.restore(&described);

    assert!(
        !world.scene.entities.get(car).expect("alive").hidden,
        "one step back the car is drawn again"
    );
    assert!(shown(&world.scene.entities, wheel), "and the wheel with it");
}

#[test]
fn ctrl_z_in_a_frame_hands_back_the_world_before_the_last_record() {
    let mut world = edited();
    let car = spawn(&mut world, "", at(1.0, 0.0, 0.0));
    let wheel = spawn(&mut world, "", at(3.0, 0.0, 0.0));
    let mut panels = Panels::default();
    panels.apply(
        &mut world,
        &Change::Hang { child: wheel, parent: car, inside: at(2.0, 0.0, 0.0) },
    );

    frame(&mut panels, &mut world);
    frame(&mut panels, &mut world);
    assert_eq!(panels.history.undoable(), Some("hang"));

    frame_with(&mut panels, &mut world, key(Key::Z, true, false));

    let described = panels.take_restore().expect("the key took a step back");
    let ids = described.entities.ids();
    assert_eq!(ids.len(), 2, "the world before the hang, with both things in it");
    assert!(
        ids.iter().all(|id| !parent(&described.entities, *id).is_some()),
        "and neither hanging off the other"
    );
}

#[test]
fn ctrl_shift_z_and_ctrl_y_take_a_step_forward_again() {
    let mut world = edited();
    let car = spawn(&mut world, "", at(1.0, 0.0, 0.0));
    let wheel = spawn(&mut world, "", at(3.0, 0.0, 0.0));
    let mut panels = Panels::default();
    panels.apply(
        &mut world,
        &Change::Hang { child: wheel, parent: car, inside: at(2.0, 0.0, 0.0) },
    );
    frame(&mut panels, &mut world);
    frame(&mut panels, &mut world);

    for chord in [key(Key::Z, true, true), key(Key::Y, true, false)] {
        frame_with(&mut panels, &mut world, key(Key::Z, true, false));
        let back = panels.take_restore().expect("ctrl+z took a step back");
        world.restore(&back);
        frame(&mut panels, &mut world);

        frame_with(&mut panels, &mut world, chord);
        let forward = panels.take_restore().expect("the chord took a step forward");

        assert!(
            forward
                .entities
                .ids()
                .into_iter()
                .any(|id| parent(&forward.entities, id).is_some()),
            "the world after the hang, the wheel hanging off the car"
        );

        world.restore(&forward);
        frame(&mut panels, &mut world);
    }
}

#[test]
fn the_delete_key_removes_what_is_selected_as_one_record() {
    let mut world = edited();
    let car = spawn(&mut world, "", at(1.0, 0.0, 0.0));
    let wheel = spawn(&mut world, "", at(0.0, 0.0, 1.0));
    assert!(set_parent(&mut world.scene.entities, wheel, car));
    let bystander = spawn(&mut world, "", Transform::unmoved());
    let mut panels = Panels::default();
    panels.apply(&mut world, &Change::Select(Pick::Entity(car)));

    frame_with(&mut panels, &mut world, key(Key::Delete, false, false));
    frame(&mut panels, &mut world);

    let entities = &world.scene.entities;
    assert!(!entities.alive(car) && !entities.alive(wheel), "the branch went");
    assert!(entities.alive(bystander), "and nothing else");
    assert_eq!(panels.selection.at(), Pick::Nothing, "nothing is selected now");
    assert_eq!(panels.history.undoable(), Some("delete"), "and it is one step back");
}

#[test]
fn ctrl_g_groups_what_is_selected_and_ctrl_shift_g_takes_it_apart_each_one_step() {
    let mut world = edited();
    let crate_ = spawn(&mut world, "", at(1.0, 0.0, 0.0));
    let barrel = spawn(&mut world, "", at(3.0, 0.0, 0.0));
    let mut panels = Panels::default();
    panels.apply(&mut world, &Change::Select(Pick::Entity(crate_)));
    panels.apply(&mut world, &Change::Toggle(Pick::Entity(barrel)));

    let asked = frame_with(&mut panels, &mut world, key(Key::G, true, false));
    assert!(matches!(asked[..], [Request::Group]));
    panels.group(
        &mut world,
        at(2.0, 0.0, 0.0),
        &vec![(crate_, at(-1.0, 0.0, 0.0)), (barrel, at(1.0, 0.0, 0.0))],
    );
    frame(&mut panels, &mut world);
    frame(&mut panels, &mut world);

    let Pick::Entity(group) = panels.selection.at() else {
        panic!("the group is what is selected");
    };
    assert_eq!(panels.selection.len(), 1, "and nothing else");
    assert!(is_group(&world.scene.entities, group), "and it is one");
    assert_eq!(parent(&world.scene.entities, crate_), group, "with the crate in it");
    assert_eq!(parent(&world.scene.entities, barrel), group, "and the barrel");
    assert_eq!(stands(&world, crate_), triple(-1.0, 0.0, 0.0), "where it was in the world");
    assert_eq!(panels.history.undoable(), Some("group"), "one step back");

    let asked = frame_with(&mut panels, &mut world, key(Key::G, true, true));
    assert!(matches!(asked[..], [Request::Ungroup]));
    panels.ungroup(
        &mut world,
        &vec![(crate_, at(1.0, 0.0, 0.0)), (barrel, at(3.0, 0.0, 0.0))],
    );
    frame(&mut panels, &mut world);
    frame(&mut panels, &mut world);

    assert!(!world.scene.entities.alive(group), "taken apart, the empty group went");
    assert_eq!(
        parent(&world.scene.entities, crate_),
        Handle::none(),
        "and the crate stands on its own"
    );
    assert_eq!(stands(&world, crate_), triple(1.0, 0.0, 0.0));
    assert!(
        panels.selection.is(Pick::Entity(crate_)) && panels.selection.is(Pick::Entity(barrel)),
        "with what was inside selected"
    );
    assert_eq!(panels.history.undoable(), Some("ungroup"), "one step back as well");
}

/// An entity inside a group.
fn inside_a_group() -> (World, EntityId, EntityId) {
    let mut world = edited();
    let mut wall = Entity::plain(Transform::unmoved());
    wall.group = true;
    let group = world.scene.entities.spawn("", Vec::new(), wall);
    let crate_ = spawn(&mut world, "", Transform::unmoved());
    assert!(set_parent(&mut world.scene.entities, crate_, group));

    (world, group, crate_)
}

#[test]
fn a_click_in_the_picture_selects_the_outermost_group_and_with_alt_what_is_under_it() {
    let (mut world, group, crate_) = inside_a_group();
    let mut panels = Panels::default();

    panels.pick(&world, Pick::Entity(crate_), false, false);

    assert_eq!(panels.selection.at(), Pick::Entity(group), "the group around the crate");

    panels.apply(&mut world, &Change::Select(Pick::Nothing));
    panels.pick(&world, Pick::Entity(crate_), true, false);

    assert_eq!(
        panels.selection.at(),
        Pick::Entity(crate_),
        "and the crate itself with alt held"
    );
}

#[test]
fn a_click_on_a_mark_inside_a_group_selects_the_group_and_with_alt_the_lamp() {
    let (world, group, lamp) = inside_a_group();

    assert_eq!(
        grouped(&world.scene.entities, Pick::Entity(lamp)),
        Pick::Entity(group),
        "the group around the lamp"
    );
    assert_eq!(grouped(&world.scene.entities, Pick::Nothing), Pick::Nothing);
}

#[test]
fn the_outermost_of_two_groups_is_taken() {
    let (mut world, group, crate_) = inside_a_group();
    let mut town = Entity::plain(Transform::unmoved());
    town.group = true;
    let outer = world.scene.entities.spawn("", Vec::new(), town);
    assert!(set_parent(&mut world.scene.entities, group, outer));

    assert_eq!(grouped(&world.scene.entities, Pick::Entity(crate_)), Pick::Entity(outer));
    let loose = spawn(&mut world, "", Transform::unmoved());
    assert_eq!(grouped(&world.scene.entities, Pick::Entity(loose)), Pick::Entity(loose));
}

#[test]
fn a_group_is_not_made_of_nothing_and_nothing_is_written_down_for_it() {
    let mut world = edited();
    let mut panels = Panels::default();
    let count = world.scene.entities.len();

    let asked = frame_with(&mut panels, &mut world, key(Key::G, true, false));
    assert!(asked.is_empty());
    frame(&mut panels, &mut world);
    let asked = frame_with(&mut panels, &mut world, key(Key::G, true, true));
    assert!(asked.is_empty());
    panels.group(&mut world, Transform::unmoved(), &Vec::new());
    panels.ungroup(&mut world, &Vec::new());
    frame(&mut panels, &mut world);

    assert_eq!(world.scene.entities.len(), count, "no group of nothing");
    assert_eq!(panels.history.undoable(), None, "and no step back over it");
}

#[test]
fn selecting_what_hangs_off_a_row_selects_the_branch_and_not_the_row() {
    let mut world = World::new();
    let wall = spawn(&mut world, "", Transform::unmoved());
    let bricks = [at(1.0, 0.0, 0.0), at(0.0, 1.0, 0.0), at(0.0, 0.0, 1.0)]
        .map(|standing| spawn(&mut world, "", standing));
    let mortar = spawn(&mut world, "", Transform::unmoved());

    for brick in bricks {
        assert!(set_parent(&mut world.scene.entities, brick, wall));
    }

    assert!(set_parent(&mut world.scene.entities, mortar, bricks[0]));
    let mut panels = Panels::default();
    panels.apply(&mut world, &Change::Select(Pick::Entity(wall)));

    panels.apply(&mut world, &Change::Inside(wall));

    assert!(!panels.selection.is(Pick::Entity(wall)), "not the wall");
    assert_eq!(panels.selection.len(), 4, "every brick, and what hangs off a brick");

    for id in bricks.into_iter().chain([mortar]) {
        assert!(panels.selection.is(Pick::Entity(id)));
    }
}

#[test]
fn ctrl_d_copies_what_is_selected_and_selects_the_copies() {
    let mut world = edited();
    let car = spawn(&mut world, "car", at(1.0, 0.0, 0.0));
    let ball = spawn(&mut world, "", at(0.0, 0.0, 1.0));
    let mut panels = Panels::default();
    panels.apply(&mut world, &Change::Select(Pick::Entity(ball)));
    panels.apply(&mut world, &Change::Toggle(Pick::Entity(car)));

    frame_with(&mut panels, &mut world, key(Key::D, true, false));
    frame(&mut panels, &mut world);

    assert_eq!(world.scene.entities.len(), 4, "two copies beside the two");
    assert_eq!(panels.selection.len(), 2, "the copies are selected");
    let Pick::Entity(primary) = panels.selection.at() else {
        panic!("the copy of the car is the primary");
    };
    assert_ne!(primary, car);
    assert_eq!(
        world.scene.entities.name(primary),
        "car",
        "the copy of what was picked last"
    );
    assert_eq!(panels.history.undoable(), Some("duplicate"));
}

#[test]
fn f2_puts_the_keyboard_in_the_name_field_for_one_frame() {
    let mut world = edited();
    let car = spawn(&mut world, "", at(1.0, 0.0, 0.0));
    let mut panels = Panels::default();
    panels.apply(&mut world, &Change::Select(Pick::Entity(car)));

    frame_with(&mut panels, &mut world, key(Key::F2, false, false));
    assert!(panels.rename, "asked for");

    frame(&mut panels, &mut world);
    assert!(!panels.rename, "and answered by the next frame");
}

#[test]
fn a_dropped_scene_lands_as_one_record_and_is_selected() {
    let mut world = edited();
    let mut panels = Panels::default();

    let asked = panels.apply(
        &mut world,
        &Change::Drop {
            name: "scenes/box".to_owned(),
            kind: Kind::Scene,
            standing: at(4.0, 0.0, 0.0),
        },
    );
    assert!(matches!(asked, Some(Request::Lay(name)) if name == "scenes/box"));
    let crate_ = spawn(&mut world, "crate", at(4.0, 1.0, 0.0));
    panels.land(&world, &vec![crate_], &vec![]);
    frame(&mut panels, &mut world);
    frame(&mut panels, &mut world);

    assert_eq!(world.scene.entities.len(), 1, "the crate landed");
    let Pick::Entity(landed) = panels.selection.at() else {
        panic!("and is selected");
    };
    assert_eq!(world.scene.entities.name(landed), "crate");
    assert_eq!(panels.history.undoable(), Some("drop"));

    panels.apply(
        &mut world,
        &Change::Drop {
            name: "textures/wall".to_owned(),
            kind: Kind::Texture,
            standing: at(0.0, 0.0, 0.0),
        },
    );
    frame(&mut panels, &mut world);
    frame(&mut panels, &mut world);
    assert_eq!(
        world.scene.entities.len(),
        1,
        "a texture is nothing to put in the world"
    );
    assert_eq!(
        panels.history.undoable(),
        Some("drop"),
        "and no record was made of nothing"
    );
}

#[test]
fn a_play_that_puts_the_world_back_leaves_what_was_done_before_it() {
    let (mut world, mut panels, ball) = hung();
    assert_eq!(panels.history.undoable(), Some("hang"));

    // play, through the same call the key and the button make
    panels.apply(&mut world, &Change::Edit(false));
    world.editing = false;
    for _ in 0..3 {
        frame(&mut panels, &mut world);
    }
    // the game moves something, every step it runs
    shift(&mut world, ball, triple(0.0, 9.0, 0.0));
    frame(&mut panels, &mut world);
    assert_eq!(panels.history.undoable(), Some("hang"), "and nothing is written down");

    // stopping puts the world back; the clock is not put back with it
    shift(&mut world, ball, triple(0.0, 1.0, 0.0));
    world.scene.time = 4.0f64.to_bits();
    world.scene.steps += 240;
    world.editing = true;
    frame(&mut panels, &mut world);

    assert_eq!(
        panels.history.undoable(),
        Some("hang"),
        "a play that changed nothing is not a step, and the record before it stands"
    );
}

#[test]
fn a_play_whose_world_is_kept_is_one_step_to_go_back_over() {
    let (mut world, mut panels, ball) = hung();

    panels.apply(&mut world, &Change::Edit(false));
    world.editing = false;
    frame(&mut panels, &mut world);
    // the game drops it, and the stop keeps where it landed
    shift(&mut world, ball, triple(0.0, -4.0, 0.0));
    frame(&mut panels, &mut world);
    world.editing = true;
    frame(&mut panels, &mut world);

    assert_eq!(panels.history.undoable(), Some("play"), "the whole play is one step");

    panels.apply(&mut world, &Change::Undo);
    let back = panels.take_restore().expect("a world to put back");

    assert_eq!(
        back.entities.get(ball).map(|it| it.transform.position),
        Some(triple(0.0, 1.0, 0.0)),
        "the world before the play, with the ball where it was"
    );
    assert_eq!(panels.history.undoable(), Some("hang"), "and the edit before it is next");
}

#[test]
fn a_play_nobody_wrote_down_leaves_the_records_alone() {
    let (mut world, mut panels, ball) = hung();

    // nothing held a record open, so there is nothing to close
    world.editing = false;
    frame(&mut panels, &mut world);
    shift(&mut world, ball, triple(0.0, -4.0, 0.0));
    world.editing = true;
    frame(&mut panels, &mut world);

    assert_eq!(panels.history.undoable(), Some("hang"));
}

#[test]
fn a_key_typed_into_a_field_is_the_fields() {
    assert!(stepped(true, &key(Key::Delete, false, false)).is_empty());
    assert!(stepped(false, &key(Key::Other, true, false)).is_empty());
    assert!(stepped(false, &key(Key::Z, false, false)).is_empty(), "a bare letter is no chord");
}

#[test]
fn showing_an_asset_selects_it_a_material_first() {
    let mut world = World::new();
    let brass = world.materials.insert("materials/brass", false);
    let lamp = world.insert_model("models/lamp", Vec::new());
    let mut panels = Panels::default();

    panels.apply(&mut world, &Change::Inspect("materials/brass".to_owned()));
    assert_eq!(panels.selection.at(), Pick::Material(brass));
    panels.apply(&mut world, &Change::Inspect("models/lamp".to_owned()));
    assert_eq!(panels.selection.at(), Pick::Model(lamp));
    panels.apply(&mut world, &Change::Inspect("nothing".to_owned()));
    assert_eq!(panels.selection.at(), Pick::Model(lamp), "a name nothing has changes nothing");
}

#[test]
fn blocks_and_decals_are_put_down_and_selected() {
    let mut world = edited();
    let mut panels = Panels::default();

    panels.apply(&mut world, &Change::Block(at(0.0, 0.5, 0.0)));
    assert_eq!(world.scene.bodies.len(), 1);
    panels.apply(&mut world, &Change::Decal(at(0.0, 2.0, 0.0)));
    assert_eq!(world.scene.entities.len(), 2);
    assert_eq!(panels.selection.len(), 1, "the last one made");
}

#[test]
fn the_editor_is_shown_hidden_and_played() {
    let mut editor = Editor::new();
    let mut world = edited();

    assert!(!Editor::shown(None) && Editor::shown(Some(true)));
    assert!(Editor::helpers(None) && !Editor::helpers(Some(false)));
    assert_eq!(Editor::toggle(Some(true)), "false");
    assert_eq!(Editor::toggle(Some(false)), "true");
    assert_eq!(Editor::grid(Some(0.5f32.to_bits())), Some(0.5f32.to_bits()));
    for none in [0.0f32, -0.0, -1.0, f32::NAN] {
        assert_eq!(Editor::grid(Some(none.to_bits())), None, "{none}");
    }
    assert_eq!(GRID_STEP, 0.5f32.to_bits());

    assert!(matches!(editor.play(&mut world), Some(Request::Mode(false))));
    assert!(editor.panels.history.holding(), "the play is written down");
    world.editing = false;
    assert!(matches!(editor.play(&mut world), Some(Request::Mode(true))));

    let variables = Editor::install();
    let names: Vec<&str> = variables.iter().map(|variable| variable.name).collect();
    assert_eq!(names, [SHOW, GRID, HELPERS]);
    assert_eq!(variables[0].start, Start::Bool(true));
}

#[test]
fn what_the_last_run_left_is_put_back() {
    let mut editor = Editor::new();
    let session = Session {
        tabs: vec!["scenes/yard".to_owned(), "scenes/hangar".to_owned()],
        current: 1,
        panels: Sizes { left: 300, right: 260, bottom: 180 },
    };

    editor.remember(&session, "scenes/yard");
    assert_eq!(editor.panels.scene, "scenes/yard");
    assert_eq!(editor.panels.waiting, vec!["scenes/hangar".to_owned()]);

    assert_eq!(editor.panels.wanted, Some("scenes/hangar".to_owned()));
    let kept = editor.forget_not();
    assert_eq!(kept.tabs, vec!["scenes/yard".to_owned()], "what waits is not open");
    assert_eq!((kept.current, kept.panels), (0, session.panels));

    let mut world = edited();
    let caught = editor.panels.catching_up(&vec!["scenes/hangar".to_owned()]);
    assert!(matches!(caught, Some(Change::Reopen(name)) if name == "scenes/hangar"));
    editor.panels.shelve(&world, "scenes/hangar", Some(&described(1)));
    assert_eq!(editor.forget_not(), session, "the one that was on screen is there again");
    put_back(&mut editor.panels, &mut world);
    assert_eq!(world.scene.entities.len(), 1);
    assert_eq!(points(300), 300);
    assert_eq!(points(70_000), 65_535);
}

#[test]
fn the_bar_follows_the_scene_until_somebody_types() {
    let mut bar = Bar::new();
    bar.follow("scenes/yard");
    assert_eq!(bar.filed, "scenes/yard");
    bar.type_in("  scenes/court ");
    bar.follow("scenes/yard");
    assert_eq!(bar.filed, "  scenes/court ");
    assert!(matches!(bar.write(), Some(Change::Write(name)) if name == "scenes/court"));
    bar.follow("scenes/court");
    assert_eq!(bar.filed, "scenes/court", "written, so it follows again");
    bar.type_in("   ");
    assert!(bar.write().is_none());
}

#[test]
fn the_bar_says_what_its_buttons_do() {
    assert_eq!(step_label("undo", Some("hang")), "undo hang");
    assert_eq!(step_label("redo", None), "redo");
    assert_eq!((mode(true, false).button, mode(true, false).asks), ("play", false));
    assert_eq!((mode(false, false).button, mode(false, false).asks), ("stop", true));
    assert_ne!(mode(false, true).beside, mode(false, false).beside);
    assert_eq!(tool_label(Tool::Move), "move (w)");
}

#[test]
fn whatever_a_press_changes_is_taken_back_by_a_step() {
    let lamp = |world: &mut World| spawn(world, "lamp", at(1.0, 0.0, 0.0));
    let presses: Vec<fn(EntityId) -> Change> = vec![
        |_| Change::Delete,
        |_| Change::Duplicate,
        |id| Change::Hide { entity: id, hidden: true },
        |_| Change::Block(Transform::unmoved()),
        |_| Change::Decal(Transform::unmoved()),
        |_| Change::Water { standing: Transform::unmoved(), material: 0 },
    ];

    for press in presses {
        let mut world = edited();
        let id = lamp(&mut world);
        let was = world.scene.copy();
        let mut panels = Panels::default();
        panels.apply(&mut world, &Change::Select(Pick::Entity(id)));
        let change = press(id);
        panels.apply(&mut world, &change);
        assert!(!world.scene.same_world(&was), "{change:?} changed something");

        panels.apply(&mut world, &Change::Undo);
        let back = panels.take_restore().expect("a step back");
        assert!(back.same_world(&was), "{change:?} was taken back");
    }
}

#[test]
fn a_press_cannot_hang_a_thing_below_itself() {
    let mut world = edited();
    let car = spawn(&mut world, "car", Transform::unmoved());
    let wheel = spawn(&mut world, "wheel", Transform::unmoved());
    let mut panels = Panels::default();
    let inside = Transform::unmoved();

    panels.apply(&mut world, &Change::Hang { child: wheel, parent: car, inside });
    panels.apply(&mut world, &Change::Hang { child: car, parent: wheel, inside });
    panels.apply(&mut world, &Change::Hang { child: car, parent: car, inside });

    assert_eq!(parent(&world.scene.entities, wheel), car);
    assert!(!parent(&world.scene.entities, car).is_some(), "the car still stands on its own");
}

#[test]
fn a_copy_of_a_group_is_a_group() {
    let (mut world, group, _) = inside_a_group();
    let mut panels = Panels::default();
    panels.apply(&mut world, &Change::Select(Pick::Entity(group)));
    panels.apply(&mut world, &Change::Duplicate);

    let Pick::Entity(copy) = panels.selection.at() else {
        panic!("the copy is selected");
    };
    assert_ne!(copy, group);
    assert!(is_group(&world.scene.entities, copy));
    assert_eq!(world.scene.entities.len(), 4, "with what was in it");
}

#[test]
fn a_frame_stops_at_what_is_asked_and_goes_on_behind_it() {
    let mut world = edited();
    let car = spawn(&mut world, "car", Transform::unmoved());
    let mut panels = Panels::default();
    panels.waiting = vec!["scenes/hangar".to_owned()];
    look(
        &mut panels,
        &world,
        Some(Click { pick: Pick::Entity(car), alt: true, command: false }),
    );
    assert!(panels.selection.is(Pick::Entity(car)), "the click is taken first");

    let mut queue = gather(
        &mut panels,
        vec![Change::Hide { entity: car, hidden: true }],
        &vec!["scenes/hangar".to_owned()],
        false,
        &key(Key::F2, false, false),
        vec![Change::Code("scripts/thruster".to_owned())],
    );
    assert_eq!(queue.len(), 4);

    let first = press(&mut panels, &mut world, &mut queue);
    assert!(matches!(first, Some(Request::Reopen(name)) if name == "scenes/hangar"));
    assert!(!shown(&world.scene.entities, car), "what stood before it is done");
    assert!(!panels.rename, "and what stands behind it is not");
    assert_eq!(queue.len(), 2);

    let second = press(&mut panels, &mut world, &mut queue);
    assert!(matches!(second, Some(Request::Run(line)) if line == "code.open scripts/thruster"));
    assert!(panels.rename);
    assert!(press(&mut panels, &mut world, &mut queue).is_none());
}
