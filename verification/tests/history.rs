use colby_editor::history::History;
use colby_editor::world::{Entity, EntityId, Scene, Transform, Triple, World};

/// Three fractions, by their bits.
fn triple(x: f32, y: f32, z: f32) -> Triple {
    Triple { x: x.to_bits(), y: y.to_bits(), z: z.to_bits() }
}

/// A world being edited, with one named thing in it.
fn edited() -> (World, EntityId) {
    let mut world = World::new();
    world.editing = true;
    let standing = Transform::at(triple(0.0, 1.0, 0.0));
    let id = world.scene.entities.spawn("crate", Vec::new(), Entity::plain(standing));

    (world, id)
}

/// Where the first thing of a scene is.
fn first(scene: &Scene) -> Triple {
    let id = scene.entities.ids()[0];

    scene.entities.get(id).expect("alive").transform.position
}

/// Puts the thing somewhere without a word.
fn put(world: &mut World, id: EntityId, to: Triple) {
    let mut entity = world.scene.entities.get(id).expect("alive");
    entity.transform.position = to;
    world.scene.entities.set(id, entity);
}

/// Moves the thing, the way a writer does: a word first, then the write.
fn shove(history: &mut History, world: &mut World, id: EntityId, to: Triple) {
    history.begin("move", world);
    put(world, id, to);
}

#[test]
fn a_held_record_outlasts_every_frame_that_writes_nothing_to_it() {
    let (mut world, id) = edited();
    let mut history = History::default();

    history.hold("play", &world);
    for _ in 0..5 {
        assert!(!history.settle(&world), "a settle does not end a play");
        assert!(history.holding());
    }

    // the game moved it, and the stop kept where it got to
    put(&mut world, id, triple(7.0, 0.0, 0.0));

    assert!(history.release(&world), "the play is a step to go back over");
    assert!(!history.holding());
    assert_eq!(history.undoable(), Some("play"));
    assert_eq!(
        first(&history.undo(&world).expect("the world before it")),
        triple(0.0, 1.0, 0.0),
        "back to where the play started"
    );
}

#[test]
fn a_play_that_ends_where_it_began_is_not_a_step() {
    let (mut world, _) = edited();
    let mut history = History::default();

    history.hold("play", &world);
    // the clock runs while a world is edited as well as while it is played
    world.scene.time = 4.5f64.to_bits();
    world.scene.steps += 270;

    assert!(!history.release(&world), "a stop that put the world back changed nothing");
    assert_eq!(history.len(), 0);
    assert!(!history.release(&world), "and releasing again is nothing at all");
}

#[test]
fn a_gesture_that_left_the_world_as_it_found_it_is_not_a_step_either() {
    let (mut world, id) = edited();
    let mut history = History::default();

    // a drag that went nowhere, over frames in which the clock kept going
    for step in 1..4u8 {
        shove(&mut history, &mut world, id, triple(0.0, 1.0, 0.0));
        world.scene.time = (f64::from(step) * 0.016).to_bits();
        world.scene.steps += 1;
    }
    history.settle(&world);
    history.settle(&world);

    assert_eq!(history.len(), 0, "nothing moved, so there is nothing to go back over");
}

#[test]
fn a_play_does_not_throw_away_what_was_done_before_it() {
    let (mut world, id) = edited();
    let mut history = History::default();
    shove(&mut history, &mut world, id, triple(1.0, 0.0, 0.0));
    history.settle(&world);
    history.settle(&world);
    assert_eq!(history.len(), 1);

    history.hold("play", &world);
    put(&mut world, id, triple(0.0, 0.0, 1.0));
    assert!(history.release(&world));

    assert_eq!(history.len(), 2, "the play stands in front of the move");
    assert_eq!(history.undoable(), Some("play"));
}

#[test]
fn a_second_hold_without_a_release_keeps_the_older_world() {
    let (mut world, id) = edited();
    let mut history = History::default();

    history.hold("play", &world);
    put(&mut world, id, triple(1.0, 0.0, 0.0));
    history.hold("play", &world);
    put(&mut world, id, triple(0.0, 0.0, 1.0));
    assert!(history.release(&world));

    assert_eq!(
        first(&history.undo(&world).expect("a world")),
        triple(0.0, 1.0, 0.0),
        "the world the first hold saw, not the second"
    );
}

#[test]
fn a_gesture_open_when_a_play_starts_is_closed_first() {
    let (mut world, id) = edited();
    let mut history = History::default();
    shove(&mut history, &mut world, id, triple(1.0, 0.0, 0.0));

    history.hold("play", &world);

    assert_eq!(history.len(), 1, "the move became a record of its own");
    assert_eq!(history.undoable(), Some("move"));
}

#[test]
fn a_gesture_is_one_record_however_many_frames_it_took() {
    let (mut world, id) = edited();
    let mut history = History::default();

    // three frames of a drag, each writing once
    for step in [1.0, 2.0, 3.0] {
        shove(&mut history, &mut world, id, triple(step, 0.0, 0.0));
        assert!(!history.settle(&world), "a frame that wrote keeps the gesture open");
    }

    assert!(history.settle(&world), "and the first quiet frame closes it");
    assert_eq!(history.len(), 1, "as one record");
    assert_eq!(history.undoable(), Some("move"));
    assert_eq!(
        history.undo(&world).map(|before| first(&before)),
        Some(triple(0.0, 1.0, 0.0)),
        "which goes back to before the drag began"
    );
}

#[test]
fn the_first_word_of_a_gesture_names_it() {
    let (mut world, id) = edited();
    let mut history = History::default();

    history.begin("move", &world);
    shove(&mut history, &mut world, id, triple(1.0, 0.0, 0.0));
    history.begin("rename", &world);
    history.settle(&world);
    history.settle(&world);

    assert_eq!(history.undoable(), Some("move"), "the word that opened it");
}

#[test]
fn a_gesture_that_changed_nothing_is_not_a_record() {
    let (world, _) = edited();
    let mut history = History::default();

    history.begin("nothing", &world);
    history.settle(&world);
    assert!(!history.settle(&world), "the world is as it was");
    assert_eq!(history.len(), 0);
    assert_eq!(history.undoable(), None);
}

#[test]
fn undo_goes_back_and_redo_goes_forward_and_a_new_record_drops_the_redo() {
    let (mut world, id) = edited();
    let mut history = History::default();

    shove(&mut history, &mut world, id, triple(1.0, 0.0, 0.0));
    history.settle(&world);
    history.settle(&world);
    shove(&mut history, &mut world, id, triple(0.0, 0.0, 1.0));
    history.settle(&world);
    history.settle(&world);
    assert_eq!(history.len(), 2);

    let back = history.undo(&world).expect("a step back");
    assert_eq!(first(&back), triple(1.0, 0.0, 0.0), "the world after the first move");
    assert_eq!(history.undoable(), Some("move"), "one more to undo");
    assert_eq!(history.redoable(), Some("move"), "and one to redo");

    let forward = history.redo().expect("a step forward");
    assert_eq!(first(&forward), triple(0.0, 0.0, 1.0));
    assert!(history.redo().is_none(), "and nothing past the end");

    history.undo(&world);
    history.undo(&world);
    assert!(history.undo(&world).is_none(), "nor before the beginning");

    // something new after two undos, and the two redos are gone
    shove(&mut history, &mut world, id, triple(-1.0, 0.0, 0.0));
    history.settle(&world);
    history.settle(&world);
    assert_eq!(history.len(), 1, "the undone records were dropped");
    assert!(history.redoable().is_none());
}

#[test]
fn the_oldest_record_goes_past_the_limit() {
    let (mut world, id) = edited();
    let mut history = History::new(3);

    for step in [1.0, 2.0, 3.0, 4.0, 5.0] {
        shove(&mut history, &mut world, id, triple(step, 0.0, 0.0));
        history.settle(&world);
        history.settle(&world);
    }

    assert_eq!(history.len(), 3, "three kept");
    let mut oldest = None;
    while let Some(before) = history.undo(&world) {
        oldest = Some(first(&before));
    }
    assert_eq!(
        oldest,
        Some(triple(2.0, 0.0, 0.0)),
        "and the one before the third is the floor"
    );
}

#[test]
fn a_world_being_played_records_nothing() {
    let (mut world, id) = edited();
    world.editing = false;
    let mut history = History::default();

    shove(&mut history, &mut world, id, triple(1.0, 0.0, 0.0));
    history.settle(&world);
    history.settle(&world);

    assert_eq!(history.len(), 0, "the game writes the world; nothing here does");
}

#[test]
fn an_undo_mid_gesture_ends_the_gesture_first() {
    let (mut world, id) = edited();
    let mut history = History::default();

    shove(&mut history, &mut world, id, triple(1.0, 0.0, 0.0));
    let back = history.undo(&world).expect("the gesture so far is a record");
    assert_eq!(first(&back), triple(0.0, 1.0, 0.0), "back to before it");
    assert_eq!(history.len(), 1);
}

#[test]
fn what_an_undo_hands_back_puts_the_world_back_when_restored() {
    let (mut world, id) = edited();
    let mut history = History::default();

    shove(&mut history, &mut world, id, triple(3.0, 4.0, 5.0));
    history.settle(&world);
    history.settle(&world);

    let before = history.undo(&world).expect("a step back");
    world.restore(&before);
    assert_eq!(first(&world.scene), triple(0.0, 1.0, 0.0), "the move is undone");
    assert!(
        world.scene.entities.alive(id),
        "and the handle still resolves: same slot, same generation"
    );
    assert_eq!(world.scene.entities.name(id), "crate");

    let after = history.redo().expect("a step forward");
    world.restore(&after);
    assert_eq!(first(&world.scene), triple(3.0, 4.0, 5.0), "the move is done again");
}
