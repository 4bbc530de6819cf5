//! Everything about the editor that is not drawing: what is selected, what
//! can be undone, and what a press does to the world.

use vstd::prelude::*;
use vstd::string::*;
use crate::bake::{bake, baked_world, sides_of, Baked, Walls};
use crate::catalog::Kind;
use crate::change::{presses, Change, Pressed};
use crate::copy::{copies_of, doubled, duplicate};
use crate::edit::{delete, deleted_from, descendants, hang, stood};
use crate::gizmo::Tool;
use crate::group::{
    around, group, group_at, grouped, grouped_up, is_group, still_there, ungroup, ungrouped,
};
use crate::history::{
    after_that, before_that, begun, held as held_open, redone, released, settled,
    sound as past_sound, undone, what_was_done_can_be_undone, History, Past,
};
use crate::make::{
    block, decal, drop_mesh, drop_model, landed, landed_picks, stem, stem_of, still_box, water,
    with_entity, with_model, with_pair, BOX, CUBE,
};
use crate::paint::{starting_stroke, stroke_within, Stroke, RADIUS, STRENGTH};
use crate::select::{
    only, picks_of, refreshed, toggled, Pick, Selected, Selection,
};
use crate::session::{starting_sizes, Kept, Session, Sizes};
use crate::table::{replaced, texts, thing_at, Thing};
use crate::tabs::{
    find_tab, fresh_past, recalled, rename_tabs, shelf, tab_is_first, tab_named, tabs_wf, Shelved, Tab,
};
use crate::text::{letters, part, plus, same, trim, trimmed};
use crate::tree::{branch, hung, may_hang, Entities};
use crate::world::{
    number_of, plain_entity, same_world, BodyId, Described, Entity, EntityId,
    Scene, Transform, World, Worldly, MAX_ENTITIES,
};

verus! {

/// What a tab is called before anybody has written it anywhere.
pub const UNNAMED: &'static str = "edited";

/// Which of the bottom panel's panes is up.
#[derive(Clone, Copy, Debug, PartialEq, Eq, Structural)]
pub enum Pane {
    /// The console.
    Console,
    /// The statistics.
    Statistics,
    /// The asset browser.
    Assets,
    /// Every console variable, as something to turn.
    Settings,
    /// What a frame costs, one row per part of it.
    Profiler,
}

impl Pane {
    /// What the tab is called.
    pub open spec fn said(self) -> Seq<char> {
        match self {
            Pane::Console => "console"@,
            Pane::Statistics => "statistics"@,
            Pane::Assets => "assets"@,
            Pane::Settings => "settings"@,
            Pane::Profiler => "profiler"@,
        }
    }

    /// What the tab is called.
    pub fn name(self) -> (result: &'static str)
        ensures
            result@ == self.said(),
    {
        match self {
            Pane::Console => "console",
            Pane::Statistics => "statistics",
            Pane::Assets => "assets",
            Pane::Settings => "settings",
            Pane::Profiler => "profiler",
        }
    }
}

/// Every pane has a name of its own.
pub proof fn panes_have_their_own_names(one: Pane, other: Pane)
    ensures
        one.said() == other.said() ==> one == other,
{
    reveal_strlit("console");
    reveal_strlit("statistics");
    reveal_strlit("assets");
    reveal_strlit("settings");
    reveal_strlit("profiler");
    assert("console"@.len() == 7 && "statistics"@.len() == 10 && "assets"@.len() == 6);
    assert("settings"@.len() == 8 && "profiler"@.len() == 8);
    assert("settings"@[0] == 's' && "profiler"@[0] == 'p');
}

/// What a press asks of whoever runs the editor.
#[derive(Debug)]
pub enum Request {
    /// Run a console line.
    Run(String),
    /// Edit the world, or play it.
    Mode(bool),
    /// Open a scene, if there is a compiled one of that name.
    Open(String),
    /// Open a scene of the last run again, without moving to it.
    Reopen(String),
    /// Lay a scene down in the world.
    Lay(String),
    /// Reckon where a group of what is selected stands, and make it.
    Group,
    /// Reckon where what is in the groups selected stands without them, and
    /// take them apart.
    Ungroup,
}

/// What is asked.
pub ghost enum Asked {
    Run(Seq<char>),
    Mode(bool),
    Open(Seq<char>),
    Reopen(Seq<char>),
    Lay(Seq<char>),
    Group,
    Ungroup,
}

/// What is asked, if anything is.
pub open spec fn request_view(request: Option<Request>) -> Option<Asked> {
    match request {
        None => None,
        Some(Request::Run(line)) => Some(Asked::Run(line@)),
        Some(Request::Mode(editing)) => Some(Asked::Mode(editing)),
        Some(Request::Open(name)) => Some(Asked::Open(name@)),
        Some(Request::Reopen(name)) => Some(Asked::Reopen(name@)),
        Some(Request::Lay(name)) => Some(Asked::Lay(name@)),
        Some(Request::Group) => Some(Asked::Group),
        Some(Request::Ungroup) => Some(Asked::Ungroup),
    }
}

/// The panels, what is selected, and what can be undone.
#[derive(Debug)]
pub struct Panels {
    /// What is selected.
    pub selection: Selection,
    /// What was done to the world on screen.
    pub history: History,
    /// What the scene on screen is called.
    pub scene: String,
    /// The scenes that are open and not on screen, in the order of the row.
    pub tabs: Vec<Tab>,
    /// Where in the row the scene on screen stands.
    pub place: usize,
    /// Which of the bottom panes is up.
    pub pane: Pane,
    /// What the gizmo does.
    pub tool: Tool,
    /// Whether the brush is out.
    pub brushing: bool,
    /// How wide the brush is and how hard it presses.
    pub stroke: Stroke,
    /// Whether the name field takes the keyboard this frame.
    pub rename: bool,
    /// Whether the world was being edited last frame.
    pub was_editing: bool,
    /// A world to put back, because a step was taken this frame.
    pub restore: Option<Scene>,
    /// How wide the three panels are.
    pub sizes: Sizes,
    /// Scenes the last run had open, waiting for the compiler.
    pub waiting: Vec<String>,
    /// The one the last run had on screen, to be moved to once none waits.
    pub wanted: Option<String>,
}

/// What the panels hold.
pub ghost struct Held {
    pub selection: Selected,
    pub past: Past,
    pub scene: Seq<char>,
    pub shelf: Seq<Shelved>,
    pub place: nat,
    pub pane: Pane,
    pub tool: Tool,
    pub brushing: bool,
    pub stroke: Stroke,
    pub rename: bool,
    pub was_editing: bool,
    pub restore: Option<Described>,
    pub sizes: Sizes,
    pub waiting: Seq<Seq<char>>,
    pub wanted: Option<Seq<char>>,
}

/// What the panels hold before anything was done: nothing but a world nobody
/// has named.
pub open spec fn started() -> Held {
    Held {
        selection: Seq::empty(),
        past: fresh_past(),
        scene: UNNAMED@,
        shelf: Seq::empty(),
        place: 0,
        pane: Pane::Console,
        tool: Tool::Move,
        brushing: false,
        stroke: starting_stroke(),
        rename: false,
        was_editing: false,
        restore: None,
        sizes: starting_sizes(),
        waiting: Seq::empty(),
        wanted: None,
    }
}

/// The scenes that are open, in the order of the row, the one on screen among
/// them as it is now.
pub open spec fn row(held: Held, world: Worldly) -> Seq<Shelved> {
    held.shelf.insert(
        held.place as int,
        Shelved { name: held.scene, past: held.past, scene: world.scene },
    )
}

/// What the scenes that are open are called, in the order of the row.
pub open spec fn row_names(held: Held) -> Seq<Seq<char>> {
    held.shelf.map_values(|tab: Shelved| tab.name).insert(held.place as int, held.scene)
}

/// A selection of several things, picked one after the other.
pub open spec fn selected_all(world: Worldly, picks: Seq<Pick>) -> Selected
    decreases picks.len(),
{
    if picks.len() == 0 {
        Seq::empty()
    } else {
        toggled(selected_all(world, picks.drop_last()), world, picks.last())
    }
}

/// What making something leaves: the things made selected, or everything as
/// it was where nothing was made.
pub open spec fn having_made(held: Held, world: Worldly, picks: Seq<Pick>) -> Held {
    if picks.len() == 0 {
        held
    } else {
        Held { selection: selected_all(world, picks), ..held }
    }
}

/// What is written down before something is done.
pub open spec fn noted(held: Held, label: Seq<char>, world: Worldly) -> Held {
    Held { past: begun(held.past, label, world), ..held }
}

/// Entities with one of them hidden, or shown again.
pub open spec fn hidden_in(scene: Described, id: EntityId, hidden: bool) -> Described {
    Described {
        entities: replaced(
            scene.entities,
            id,
            Thing {
                facts: Entity { hidden, ..thing_at(scene.entities, id).facts },
                ..thing_at(scene.entities, id)
            },
        ),
        ..scene
    }
}

/// What dropping an asset makes of the world, and what of it is selected. A
/// scene is laid down by whoever runs the editor; what does not stand
/// anywhere becomes nothing.
pub open spec fn dropped(world: Worldly, name: Seq<char>, kind: Kind, standing: Transform) -> (
    Worldly,
    Seq<Pick>,
) {
    match kind {
        Kind::Mesh => {
            let mesh = number_of(world.meshes, name);
            let (scene, picks) = with_entity(
                world.scene,
                stem_of(name),
                Entity { mesh: mesh as u32, ..plain_entity(standing) },
            );
            if mesh == 0 {
                (world, Seq::empty())
            } else {
                (Worldly { scene, ..world }, picks)
            }
        },
        Kind::Model => {
            let model = number_of(world.models, name);
            let (scene, picks) = with_model(
                world.scene,
                name,
                standing,
                world.pieces[model as int],
            );
            if model == 0 {
                (world, Seq::empty())
            } else {
                (Worldly { scene, ..world }, picks)
            }
        },
        _ => (world, Seq::empty()),
    }
}

/// Whether any of several things picked is an entity.
pub open spec fn any_entity(picks: Seq<Pick>) -> bool {
    exists|i: int| 0 <= i < picks.len() && (#[trigger] picks[i]) is Entity
}

/// Whether any of several things picked is a group.
pub open spec fn any_group(entities: Entities, picks: Seq<Pick>) -> bool {
    exists|i: int|
        0 <= i < picks.len() && (#[trigger] picks[i]) is Entity && group_at(
            entities,
            picks[i]->Entity_0,
        )
}

/// An asset's name with its last part become something else.
pub open spec fn renamed_last(name: Seq<char>, to: Seq<char>) -> Seq<char> {
    name.take(name.len() - stem_of(name).len()) + to
}

/// What a press comes to.
pub type Outcome = (Held, Worldly, Option<Asked>);

/// What deleting what is selected comes to.
#[verifier::opaque]
pub open spec fn on_delete(held: Held, world: Worldly) -> Outcome {
    let picks = picks_of(held.selection);
    if picks.len() == 0 {
        (held, world, None)
    } else {
        (
            Held { selection: Seq::empty(), ..noted(held, "delete"@, world) },
            Worldly { scene: deleted_from(world.scene, picks), ..world },
            None,
        )
    }
}

/// What copying what is selected comes to.
#[verifier::opaque]
pub open spec fn on_duplicate(held: Held, world: Worldly) -> Outcome {
    let picks = picks_of(held.selection);
    if picks.len() == 0 {
        (held, world, None)
    } else {
        let made = doubled(world.scene, picks);
        let after = Worldly { scene: made.scene, ..world };
        (
            Held {
                selection: selected_all(after, copies_of(made, picks)),
                ..noted(held, "duplicate"@, world)
            },
            after,
            None,
        )
    }
}

/// What hanging an entity comes to.
#[verifier::opaque]
pub open spec fn on_hang(
    held: Held,
    world: Worldly,
    child: EntityId,
    parent: EntityId,
    inside: Transform,
) -> Outcome {
    (
        noted(held, "hang"@, world),
        if may_hang(world.scene.entities, child, parent) {
            Worldly {
                scene: Described {
                    entities: stood(hung(world.scene.entities, child, parent), child, inside),
                    ..world.scene
                },
                ..world
            }
        } else {
            world
        },
        None,
    )
}

/// What asking for a group comes to: nothing where no entity is selected.
#[verifier::opaque]
pub open spec fn on_group(held: Held, world: Worldly) -> Outcome {
    (
        held,
        world,
        if any_entity(picks_of(held.selection)) {
            Some(Asked::Group)
        } else {
            None
        },
    )
}

/// What asking for groups to be taken apart comes to: nothing where none is
/// selected.
#[verifier::opaque]
pub open spec fn on_ungroup(held: Held, world: Worldly) -> Outcome {
    (
        held,
        world,
        if any_group(world.scene.entities, picks_of(held.selection)) {
            Some(Asked::Ungroup)
        } else {
            None
        },
    )
}

/// What making a group of what is selected comes to.
pub open spec fn with_group(
    held: Held,
    world: Worldly,
    standing: Transform,
    insides: Seq<(EntityId, Transform)>,
) -> (Held, Worldly) {
    let picks = picks_of(held.selection);
    if any_entity(picks) {
        let (entities, made) = grouped_up(world.scene.entities, picks, standing, insides);
        let after = Worldly { scene: Described { entities, ..world.scene }, ..world };
        (having_made(noted(held, "group"@, world), after, made), after)
    } else {
        (held, world)
    }
}

/// What taking the groups selected apart comes to.
pub open spec fn without_groups(
    held: Held,
    world: Worldly,
    insides: Seq<(EntityId, Transform)>,
) -> (Held, Worldly) {
    let picks = picks_of(held.selection);
    if any_group(world.scene.entities, picks) {
        let (entities, released) = ungrouped(world.scene.entities, picks, insides, picks.len());
        let after = Worldly { scene: Described { entities, ..world.scene }, ..world };
        (
            Held {
                selection: selected_all(after, still_there(entities, released)),
                ..noted(held, "ungroup"@, world)
            },
            after,
        )
    } else {
        (held, world)
    }
}

/// What selecting everything inside an entity comes to.
#[verifier::opaque]
pub open spec fn on_inside(held: Held, world: Worldly, entity: EntityId) -> Outcome {
    (
        Held {
            selection: selected_all(
                world,
                crate::bake::as_picks(branch(world.scene.entities, entity)),
            ),
            ..held
        },
        world,
        None,
    )
}

/// What hiding an entity comes to.
#[verifier::opaque]
pub open spec fn on_hide(held: Held, world: Worldly, entity: EntityId, hidden: bool) -> Outcome {
    (
        noted(held, "hide"@, world),
        Worldly { scene: hidden_in(world.scene, entity, hidden), ..world },
        None,
    )
}

/// What asking for a mode comes to: a play is written down as it starts.
#[verifier::opaque]
pub open spec fn on_edit(held: Held, world: Worldly, editing: bool) -> Outcome {
    (
        if editing {
            held
        } else {
            Held { past: held_open(held.past, "play"@, world.scene), ..held }
        },
        world,
        Some(Asked::Mode(editing)),
    )
}

/// What a step back comes to.
#[verifier::opaque]
pub open spec fn on_undo(held: Held, world: Worldly) -> Outcome {
    (
        Held {
            restore: before_that(held.past, world.scene),
            past: undone(held.past, world.scene),
            ..held
        },
        world,
        None,
    )
}

/// What a step forward comes to.
#[verifier::opaque]
pub open spec fn on_redo(held: Held, world: Worldly) -> Outcome {
    (Held { restore: after_that(held.past), past: redone(held.past), ..held }, world, None)
}

/// What showing an asset comes to: a material before a model, and nothing for
/// a name nothing has.
#[verifier::opaque]
pub open spec fn on_inspect(held: Held, world: Worldly, name: Seq<char>) -> Outcome {
    let material = number_of(world.materials, name);
    let model = number_of(world.models, name);
    if material != 0 {
        (Held { selection: only(world, Pick::Material(material as u32)), ..held }, world, None)
    } else if model != 0 {
        (Held { selection: only(world, Pick::Model(model as u32)), ..held }, world, None)
    } else {
        (held, world, None)
    }
}

/// What renaming an asset comes to: the scenes that are open on it follow
/// their file.
#[verifier::opaque]
pub open spec fn on_rename_asset(
    held: Held,
    world: Worldly,
    name: Seq<char>,
    to: Seq<char>,
) -> Outcome {
    (
        Held {
            scene: if held.scene == name {
                renamed_last(name, to)
            } else {
                held.scene
            },
            shelf: recalled(held.shelf, name, renamed_last(name, to)),
            ..held
        },
        world,
        Some(Asked::Run("asset.rename "@ + name + " "@ + to)),
    )
}

/// What putting water in the world comes to.
#[verifier::opaque]
pub open spec fn on_water(
    held: Held,
    world: Worldly,
    standing: Transform,
    material: u32,
) -> Outcome {
    let (scene, made) = with_pair(
        world.scene,
        "water"@,
        Entity { mesh: CUBE, material, ..plain_entity(standing) },
        still_box(standing, true),
    );
    let after = Worldly { scene, ..world };
    (having_made(noted(held, "water"@, world), after, made), after, None)
}

/// What putting a block in the world comes to.
#[verifier::opaque]
pub open spec fn on_block(held: Held, world: Worldly, standing: Transform) -> Outcome {
    let (scene, made) = with_pair(
        world.scene,
        "block"@,
        Entity { mesh: CUBE, ..plain_entity(standing) },
        still_box(standing, false),
    );
    let after = Worldly { scene, ..world };
    (having_made(noted(held, "block"@, world), after, made), after, None)
}

/// What putting a decal in the world comes to.
#[verifier::opaque]
pub open spec fn on_decal(held: Held, world: Worldly, standing: Transform) -> Outcome {
    let (scene, made) = with_entity(
        world.scene,
        "decal"@,
        Entity { decal: BOX, ..plain_entity(standing) },
    );
    let after = Worldly { scene, ..world };
    (having_made(noted(held, "decal"@, world), after, made), after, None)
}

/// What a bake comes to: called by the last part of the write field, and
/// nothing where that is nothing.
#[verifier::opaque]
pub open spec fn on_bake(held: Held, world: Worldly, filed: Seq<char>, walls: Seq<Walls>) -> Outcome {
    let name = stem_of(trimmed(filed));
    if name.len() == 0 {
        (held, world, None)
    } else {
        let picks = picks_of(held.selection);
        let (after, made) = baked_world(
            world,
            picks,
            sides_of(world.scene, picks, walls),
            name,
        );
        (
            having_made(noted(held, "bake"@, world), after, made),
            after,
            if made.len() == 0 {
                None
            } else {
                Some(Asked::Run("blocks.write "@ + name))
            },
        )
    }
}

/// What asking for the still light comes to.
#[verifier::opaque]
pub open spec fn on_light(held: Held, world: Worldly, filed: Seq<char>) -> Outcome {
    let name = stem_of(trimmed(filed));
    if name.len() == 0 {
        (held, world, None)
    } else {
        (
            Held { scene: name, ..noted(held, "bake light"@, world) },
            world,
            Some(Asked::Run("light.bake "@ + name)),
        )
    }
}

/// What dropping an asset comes to.
#[verifier::opaque]
pub open spec fn on_drop(
    held: Held,
    world: Worldly,
    name: Seq<char>,
    kind: Kind,
    standing: Transform,
) -> Outcome {
    let (after, made) = dropped(world, name, kind, standing);
    (
        having_made(noted(held, "drop"@, world), after, made),
        after,
        if kind == Kind::Scene {
            Some(Asked::Lay(name))
        } else {
            None
        },
    )
}

/// What moving to an open scene comes to: the one on screen is left as it is
/// and the other one is put back as it was left. Nothing for the one that is
/// on screen, and nothing past the end of the row.
#[verifier::opaque]
pub open spec fn on_show(held: Held, world: Worldly, which: nat) -> Outcome {
    if which == held.place || which > held.shelf.len() {
        (Held { restore: None, ..held }, world, None)
    } else {
        let tab = row(held, world)[which as int];
        (
            Held {
                shelf: row(held, world).remove(which as int),
                place: which,
                scene: tab.name,
                past: tab.past,
                restore: Some(tab.scene),
                ..held
            },
            world,
            None,
        )
    }
}

/// What shutting an open scene comes to. The last one stays open. Another one
/// than the one on screen goes; the one on screen gives way to the one after
/// it, or the one before it where there is none after.
#[verifier::opaque]
pub open spec fn on_shut(held: Held, world: Worldly, which: nat) -> Outcome {
    let len = held.shelf.len();
    if len == 0 || which > len {
        (Held { restore: None, ..held }, world, None)
    } else if which == held.place {
        let next = if which < len {
            which
        } else {
            (len - 1) as nat
        };
        let tab = held.shelf[next as int];
        (
            Held {
                shelf: held.shelf.remove(next as int),
                place: next,
                scene: tab.name,
                past: tab.past,
                restore: Some(tab.scene),
                ..held
            },
            world,
            None,
        )
    } else if which < held.place {
        (
            Held {
                shelf: held.shelf.remove(which as int),
                place: (held.place - 1) as nat,
                restore: None,
                ..held
            },
            world,
            None,
        )
    } else {
        (Held { shelf: held.shelf.remove(which - 1), restore: None, ..held }, world, None)
    }
}

/// What opening a scene that was compiled comes to: moving to it where it is
/// open, and otherwise a scene at the end of the row with nothing done to it.
pub open spec fn reached(held: Held, world: Worldly, name: Seq<char>, scene: Described) -> Held {
    let bare = Held { selection: Seq::empty(), ..held };
    if held.scene == name {
        Held { restore: None, ..bare }
    } else {
        match tab_named(held.shelf, name, 0) {
            Some(at) => on_show(bare, world, in_row(held, at)).0,
            None => Held {
                shelf: row(held, world),
                place: held.shelf.len() + 1,
                scene: name,
                past: fresh_past(),
                restore: Some(scene),
                ..bare
            },
        }
    }
}

/// A place on the shelf as a place in the row.
pub open spec fn in_row(held: Held, at: nat) -> nat {
    if at < held.place {
        at
    } else {
        at + 1
    }
}

/// What the panels hold once the scene the last run had on screen is moved
/// to, which is when no scene of that run waits any more.
pub open spec fn chosen(held: Held, world: Worldly) -> Held {
    if held.waiting.len() > 0 || held.wanted is None {
        held
    } else {
        let then = Held { wanted: None, ..held };
        match tab_named(held.shelf, held.wanted->0, 0) {
            None => then,
            Some(at) => on_show(then, world, in_row(held, at)).0,
        }
    }
}

/// What opening a scene of the last run again comes to: it stands at the end
/// of the row with nothing done to it, unless it is open or was not compiled.
pub open spec fn reopened(
    held: Held,
    world: Worldly,
    name: Seq<char>,
    scene: Option<Described>,
) -> Held {
    chosen(
        match scene {
            None => held,
            Some(scene) => if row_names(held).contains(name) {
                held
            } else {
                Held {
                    shelf: held.shelf.push(Shelved { name, past: fresh_past(), scene }),
                    ..held
                }
            },
        },
        world,
    )
}

/// Opening a scene of the last run again does not bring it on screen: while
/// others wait, whatever is there stays there.
pub proof fn the_window_does_not_walk(
    held: Held,
    world: Worldly,
    name: Seq<char>,
    scene: Option<Described>,
)
    requires
        held.waiting.len() > 0,
    ensures
        ({
            let then = reopened(held, world, name, scene);
            then.scene == held.scene && then.past == held.past && then.place == held.place
                && then.restore == held.restore && then.selection == held.selection
        }),
{
}

/// Moving to another scene and back leaves every scene as it was, with the
/// steps that can be taken back in it.
pub proof fn there_and_back(held: Held, world: Worldly, which: nat)
    requires
        held.place <= held.shelf.len(),
        which <= held.shelf.len(),
        which != held.place,
    ensures
        ({
            let there = on_show(held, world, which).0;
            let then = Worldly { scene: there.restore->0, ..world };
            &&& there.restore == Some(row(held, world)[which as int].scene)
            &&& row(there, then) == row(held, world)
            &&& on_show(there, then, held.place).0 == (Held {
                restore: Some(world.scene),
                ..held
            })
        }),
{
    reveal(on_show);
    let there = on_show(held, world, which).0;
    let then = Worldly { scene: there.restore->0, ..world };
    assert(row(there, then) =~= row(held, world));
    assert(row(held, world).remove(held.place as int) =~= held.shelf);
}

/// A scene that is shut leaves the row, and every other one stays in it as it
/// was. Shutting says nothing of the world on screen but which one it is.
pub proof fn shutting_takes_one_scene_out(held: Held, world: Worldly, which: nat)
    requires
        held.place <= held.shelf.len(),
        0 < held.shelf.len(),
        which <= held.shelf.len(),
    ensures
        ({
            let then = on_shut(held, world, which).0;
            let scene = match then.restore {
                None => world.scene,
                Some(scene) => scene,
            };
            row(then, Worldly { scene, ..world }) == row(held, world).remove(which as int)
        }),
{
    reveal(on_shut);
    let then = on_shut(held, world, which).0;
    let scene = match then.restore {
        None => world.scene,
        Some(scene) => scene,
    };
    assert(row(then, Worldly { scene, ..world }) =~= row(held, world).remove(which as int));
}

/// A scene that is opened for the first time has nothing to take back, and
/// every scene that was open stays in the row as it was.
pub proof fn a_new_scene_has_no_past(held: Held, world: Worldly, name: Seq<char>, scene: Described)
    requires
        held.place <= held.shelf.len(),
        held.scene != name,
        forall|i: int| 0 <= i < held.shelf.len() ==> (#[trigger] held.shelf[i]).name != name,
    ensures
        ({
            let then = reached(held, world, name, scene);
            &&& then.past == fresh_past()
            &&& then.restore == Some(scene)
            &&& row(then, Worldly { scene, ..world }) == row(held, world).push(
                Shelved { name, past: fresh_past(), scene },
            )
        }),
{
    tab_is_first(held.shelf, name, 0);
    let then = reached(held, world, name, scene);
    assert(row(then, Worldly { scene, ..world }) =~= row(held, world).push(
        Shelved { name, past: fresh_past(), scene },
    ));
}

/// What a press that needs nothing but a word comes to.
#[verifier::opaque]
pub open spec fn on_word(held: Held, world: Worldly, change: Pressed) -> Outcome {
    match change {
        Pressed::Select(pick) => (Held { selection: only(world, pick), ..held }, world, None),
        Pressed::Toggle(pick) => (
            Held { selection: toggled(held.selection, world, pick), ..held },
            world,
            None,
        ),
        Pressed::Rename => (Held { rename: true, ..held }, world, None),
        Pressed::Tool(tool) => (Held { tool, brushing: false, ..held }, world, None),
        Pressed::Brush(out) => (Held { brushing: out, ..held }, world, None),
        Pressed::Stroke { radius, strength } => (
            Held { stroke: stroke_within(radius, strength), ..held },
            world,
            None,
        ),
        Pressed::Write(name) => (
            Held { scene: name, ..held },
            world,
            Some(Asked::Run("scene.write "@ + name)),
        ),
        Pressed::Open(name) => (held, world, Some(Asked::Open(name))),
        Pressed::Reopen(name) => (held, world, Some(Asked::Reopen(name))),
        Pressed::Code(name) => (held, world, Some(Asked::Run("code.open "@ + name))),
        _ => (held, world, None),
    }
}

/// What a press comes to: what the panels hold then, what the world is then,
/// and what is asked of whoever runs the editor.
pub open spec fn applied(held: Held, world: Worldly, change: Pressed) -> Outcome {
    match change {
        Pressed::Delete => on_delete(held, world),
        Pressed::Duplicate => on_duplicate(held, world),
        Pressed::Hang { child, parent, inside } => on_hang(held, world, child, parent, inside),
        Pressed::Group => on_group(held, world),
        Pressed::Ungroup => on_ungroup(held, world),
        Pressed::Inside(entity) => on_inside(held, world, entity),
        Pressed::Hide { entity, hidden } => on_hide(held, world, entity, hidden),
        Pressed::Edit(editing) => on_edit(held, world, editing),
        Pressed::Undo => on_undo(held, world),
        Pressed::Redo => on_redo(held, world),
        Pressed::Show(which) => on_show(held, world, which),
        Pressed::Shut(which) => on_shut(held, world, which),
        Pressed::Inspect(name) => on_inspect(held, world, name),
        Pressed::RenameAsset(name, to) => on_rename_asset(held, world, name, to),
        Pressed::Water { standing, material } => on_water(held, world, standing, material),
        Pressed::Block(standing) => on_block(held, world, standing),
        Pressed::Decal(standing) => on_decal(held, world, standing),
        Pressed::Bake(filed, walls) => on_bake(held, world, filed, walls),
        Pressed::Light(filed) => on_light(held, world, filed),
        Pressed::Drop { name, kind, standing } => on_drop(held, world, name, kind, standing),
        _ => on_word(held, world, change),
    }
}

/// Whatever a press changes in an edited world can be taken back: a step back
/// right after it puts back the world it was pressed in.
pub proof fn whatever_a_press_changes_can_be_undone(held: Held, world: Worldly, change: Pressed)
    requires
        past_sound(held.past),
        held.past.limit > 0,
        held.past.open is None,
        world.editing,
        applied(held, world, change).1.scene != world.scene,
        !same_world(world.scene, applied(held, world, change).1.scene),
    ensures
        ({
            let (then, after, _) = applied(held, world, change);
            on_undo(then, after).0.restore == Some(world.scene)
        }),
{
    reveal(on_delete);
    reveal(on_duplicate);
    reveal(on_hang);
    reveal(on_group);
    reveal(on_ungroup);
    reveal(on_inside);
    reveal(on_hide);
    reveal(on_edit);
    reveal(on_undo);
    reveal(on_redo);
    reveal(on_inspect);
    reveal(on_rename_asset);
    reveal(on_show);
    reveal(on_shut);
    reveal(on_water);
    reveal(on_block);
    reveal(on_decal);
    reveal(on_bake);
    reveal(on_light);
    reveal(on_drop);
    reveal(on_word);
    let after = applied(held, world, change).1.scene;
    let label = match change {
        Pressed::Delete => "delete"@,
        Pressed::Duplicate => "duplicate"@,
        Pressed::Hang { .. } => "hang"@,
        Pressed::Hide { .. } => "hide"@,
        Pressed::Water { .. } => "water"@,
        Pressed::Block(_) => "block"@,
        Pressed::Decal(_) => "decal"@,
        Pressed::Bake(_, _) => "bake"@,
        _ => "drop"@,
    };
    what_was_done_can_be_undone(held.past, label, world, after);
}

/// So can making a group of what is selected, and taking groups apart.
pub proof fn grouping_can_be_undone(
    held: Held,
    world: Worldly,
    standing: Transform,
    insides: Seq<(EntityId, Transform)>,
)
    requires
        past_sound(held.past),
        held.past.limit > 0,
        held.past.open is None,
        world.editing,
    ensures
        ({
            let (then, after) = with_group(held, world, standing, insides);
            after.scene != world.scene && !same_world(world.scene, after.scene) ==> on_undo(
                then,
                after,
            ).0.restore == Some(world.scene)
        }),
        ({
            let (then, after) = without_groups(held, world, insides);
            after.scene != world.scene && !same_world(world.scene, after.scene) ==> on_undo(
                then,
                after,
            ).0.restore == Some(world.scene)
        }),
{
    reveal(on_undo);
    let grouped = with_group(held, world, standing, insides).1.scene;
    if !same_world(world.scene, grouped) {
        what_was_done_can_be_undone(held.past, "group"@, world, grouped);
    }
    let parted = without_groups(held, world, insides).1.scene;
    if !same_world(world.scene, parted) {
        what_was_done_can_be_undone(held.past, "ungroup"@, world, parted);
    }
}

impl Panels {
    /// What the panels hold.
    pub open spec fn view(&self) -> Held {
        Held {
            selection: self.selection.view(),
            past: self.history.view(),
            scene: self.scene@,
            shelf: shelf(self.tabs@),
            place: self.place as nat,
            pane: self.pane,
            tool: self.tool,
            brushing: self.brushing,
            stroke: self.stroke,
            rename: self.rename,
            was_editing: self.was_editing,
            restore: match self.restore {
                None => None,
                Some(scene) => Some(scene.view()),
            },
            sizes: self.sizes,
            waiting: texts(self.waiting@),
            wanted: match self.wanted {
                None => None,
                Some(name) => Some(name@),
            },
        }
    }

    /// Whether the panels are as panels are.
    pub open spec fn wf(&self) -> bool {
        &&& self.history.wf()
        &&& tabs_wf(self.tabs@)
        &&& self.place <= self.tabs@.len()
        &&& self.restore is Some ==> self.restore->0.wf()
    }

    /// Panels over a world nobody has named.
    pub fn new() -> (result: Panels)
        ensures
            result.wf(),
            result.view() == started(),
    {
        let waiting: Vec<String> = Vec::new();
        assert(texts(waiting@) =~= Seq::empty());
        let tabs: Vec<Tab> = Vec::new();
        assert(shelf(tabs@) =~= Seq::empty());
        Panels {
            selection: Selection::new(),
            history: History::new(crate::history::LIMIT),
            scene: UNNAMED.to_owned(),
            tabs,
            place: 0,
            pane: Pane::Console,
            tool: Tool::Move,
            brushing: false,
            stroke: Stroke { radius: RADIUS, strength: STRENGTH },
            rename: false,
            was_editing: false,
            restore: None,
            sizes: Sizes {
                left: crate::session::HIERARCHY_WIDTH,
                right: crate::session::INSPECTOR_WIDTH,
                bottom: crate::session::BOTTOM_HEIGHT,
            },
            waiting,
            wanted: None,
        }
    }

    /// Selects several things, picked one after the other.
    fn select_all(&mut self, world: &World, picks: &Vec<Pick>)
        requires
            old(self).wf(),
        ensures
            final(self).wf(),
            final(self).view() == (Held {
                selection: selected_all(world.view(), picks@),
                ..old(self).view()
            }),
    {
        self.selection.clear();
        let mut i: usize = 0;
        assert(picks@.take(0) =~= Seq::empty());
        while i < picks.len()
            invariant
                i <= picks@.len(),
                self.wf(),
                self.view() == (Held {
                    selection: selected_all(world.view(), picks@.take(i as int)),
                    ..old(self).view()
                }),
            decreases picks@.len() - i,
        {
            proof {
                assert(picks@.take(i as int + 1).drop_last() =~= picks@.take(i as int));
                assert(picks@.take(i as int + 1).last() == picks@[i as int]);
            }
            self.selection.toggle(world, picks[i]);
            i = i + 1;
        }
        assert(picks@.take(i as int) =~= picks@);
    }

    /// Selects what was made, if anything was.
    fn take_made(&mut self, world: &World, made: &Vec<Pick>)
        requires
            old(self).wf(),
        ensures
            final(self).wf(),
            final(self).view() == having_made(old(self).view(), world.view(), made@),
    {
        if made.len() > 0 {
            self.select_all(world, made);
        }
    }

    /// Removes everything selected, and everything that could not stand
    /// without it, as one record.
    fn delete_selected(&mut self, world: &mut World)
        requires
            old(self).wf(),
            old(world).wf(),
        ensures
            final(self).wf(),
            final(world).wf(),
            (final(self).view(), final(world).view(), None::<Asked>) == on_delete(
                old(self).view(),
                old(world).view(),
            ),
    {
        proof {
            reveal(on_delete);
        }
        let picks: Vec<Pick> = self.selection.picks();
        if picks.len() == 0 {
            return;
        }
        self.history.begin("delete", world);
        delete(world, &picks);
        self.selection.clear();
    }

    /// Copies everything selected, as one record, and selects the copies.
    fn duplicate_selected(&mut self, world: &mut World)
        requires
            old(self).wf(),
            old(world).wf(),
        ensures
            final(self).wf(),
            final(world).wf(),
            (final(self).view(), final(world).view(), None::<Asked>) == on_duplicate(
                old(self).view(),
                old(world).view(),
            ),
    {
        proof {
            reveal(on_duplicate);
        }
        let picks: Vec<Pick> = self.selection.picks();
        if picks.len() == 0 {
            return;
        }
        self.history.begin("duplicate", world);
        let copies: Vec<Pick> = duplicate(world, &picks);
        self.select_all(world, &copies);
    }

    /// Hides an entity and everything hanging off it, or shows it again.
    fn set_hidden(&mut self, world: &mut World, entity: EntityId, hidden: bool)
        requires
            old(self).wf(),
            old(world).wf(),
        ensures
            final(self).wf(),
            final(world).wf(),
            (final(self).view(), final(world).view(), None::<Asked>) == on_hide(
                old(self).view(),
                old(world).view(),
                entity, hidden,
            ),
    {
        proof {
            reveal(on_hide);
        }
        self.history.begin("hide", world);
        let ghost was = world.view().scene.entities;
        match world.scene.entities.get(entity) {
            Some(facts) => {
                proof {
                    crate::edit::replaced_is_sound(
                        was,
                        MAX_ENTITIES as nat,
                        entity,
                        Thing {
                            facts: Entity { hidden, ..thing_at(was, entity).facts },
                            ..thing_at(was, entity)
                        },
                    );
                }
                world.scene.entities.set(entity, Entity { hidden, ..facts });
            },
            None => {},
        }
    }

    /// Selects everything hanging off an entity, and not the entity.
    fn select_inside(&mut self, world: &World, entity: EntityId)
        requires
            old(self).wf(),
            world.wf(),
        ensures
            final(self).wf(),
            (final(self).view(), world.view(), None::<Asked>) == on_inside(
                old(self).view(),
                world.view(),
                entity,
            ),
    {
        proof {
            reveal(on_inside);
        }
        let ids: Vec<EntityId> = descendants(&world.scene.entities, entity);
        let mut picks: Vec<Pick> = Vec::new();
        let mut i: usize = 0;
        while i < ids.len()
            invariant
                i <= ids@.len(),
                picks@ == crate::bake::as_picks(ids@).take(i as int),
            decreases ids@.len() - i,
        {
            picks.push(Pick::Entity(ids[i]));
            assert(crate::bake::as_picks(ids@).take(i as int + 1) =~= crate::bake::as_picks(
                ids@,
            ).take(i as int).push(Pick::Entity(ids@[i as int])));
            i = i + 1;
        }
        assert(picks@ =~= crate::bake::as_picks(ids@));
        self.select_all(world, &picks);
    }

    /// Selects an asset so the inspector shows it: a material, or a model,
    /// the first asked first.
    fn inspect(&mut self, world: &World, name: &str)
        requires
            old(self).wf(),
            world.wf(),
        ensures
            final(self).wf(),
            (final(self).view(), world.view(), None::<Asked>) == on_inspect(
                old(self).view(),
                world.view(),
                name@,
            ),
    {
        proof {
            reveal(on_inspect);
        }
        let material: u32 = world.materials.find(name);
        if material != 0 {
            self.selection.set(world, Pick::Material(material));
            return;
        }
        let model: u32 = world.models.find(name);
        if model != 0 {
            self.selection.set(world, Pick::Model(model));
        }
    }

    /// Asks for an asset to be renamed, and follows it with the scenes that
    /// are open on it.
    fn rename_asset(&mut self, name: &str, to: &str) -> (result: Option<Request>)
        requires
            old(self).wf(),
        ensures
            final(self).wf(),
            forall|world: Worldly|
                (final(self).view(), world, request_view(result)) == #[trigger] on_rename_asset(
                    old(self).view(),
                    world,
                    name@, to@,
                ),
    {
        proof {
            reveal(on_rename_asset);
        }
        let all: Vec<char> = letters(name);
        let end: String = stem(name);
        let tail: Vec<char> = letters(end.as_str());
        proof {
            crate::make::stem_is_the_last_part(name@);
        }
        let dir: String = part(&all, 0, all.len() - tail.len());
        assert(dir@ =~= name@.take(name@.len() - stem_of(name@).len()));
        let called: String = plus(dir.as_str(), to);
        rename_tabs(&mut self.tabs, name, called.as_str());
        if same(self.scene.as_str(), name) {
            self.scene = called;
        }
        let head: String = plus("asset.rename ", name);
        let line: String = plus(plus(head.as_str(), " ").as_str(), to);
        Some(Request::Run(line))
    }

    /// Turns the selected blocks into a mesh, and asks for it to be written
    /// out.
    fn bake_selected(&mut self, world: &mut World, filed: &str, walls: &Vec<Walls>) -> (result:
        Option<Request>)
        requires
            old(self).wf(),
            old(world).wf(),
            24 * walls@.len() <= u32::MAX,
            old(world).view().meshes.len() + 6 * walls@.len() < u32::MAX,
        ensures
            final(self).wf(),
            final(world).wf(),
            (final(self).view(), final(world).view(), request_view(result)) == on_bake(
                old(self).view(),
                old(world).view(),
                filed@, walls@,
            ),
    {
        proof {
            reveal(on_bake);
        }
        let name: String = stem(trim(filed).as_str());
        if name.as_str().is_empty() {
            return None;
        }
        let picks: Vec<Pick> = self.selection.picks();
        self.history.begin("bake", world);
        let baked: Baked = bake(world, &picks, walls, name.as_str());
        self.take_made(world, &baked.made);
        if baked.made.len() == 0 {
            return None;
        }
        Some(Request::Run(plus("blocks.write ", name.as_str())))
    }

    /// Asks for the world's still light to be worked out.
    fn light(&mut self, world: &World, filed: &str) -> (result: Option<Request>)
        requires
            old(self).wf(),
            world.wf(),
        ensures
            final(self).wf(),
            (final(self).view(), world.view(), request_view(result)) == on_light(
                old(self).view(),
                world.view(),
                filed@,
            ),
    {
        proof {
            reveal(on_light);
        }
        let name: String = stem(trim(filed).as_str());
        if name.as_str().is_empty() {
            return None;
        }
        self.history.begin("bake light", world);
        let line: String = plus("light.bake ", name.as_str());
        self.scene = name;
        Some(Request::Run(line))
    }

    /// Puts an asset into the world where it was dropped, as one record, and
    /// selects what it became.
    fn drop_asset(&mut self, world: &mut World, name: &str, kind: Kind, standing: Transform) -> (result:
        Option<Request>)
        requires
            old(self).wf(),
            old(world).wf(),
        ensures
            final(self).wf(),
            final(world).wf(),
            (final(self).view(), final(world).view(), request_view(result)) == on_drop(
                old(self).view(),
                old(world).view(),
                name@, kind, standing,
            ),
    {
        proof {
            reveal(on_drop);
        }
        self.history.begin("drop", world);
        match kind {
            Kind::Mesh => {
                let made: Vec<Pick> = drop_mesh(world, name, standing);
                self.take_made(world, &made);
                None
            },
            Kind::Model => {
                let made: Vec<Pick> = drop_model(world, name, standing);
                self.take_made(world, &made);
                None
            },
            Kind::Scene => Some(Request::Lay(name.to_owned())),
            _ => None,
        }
    }

    /// Whether any of the things selected is a group.
    fn has_group(&self, world: &World) -> (result: bool)
        ensures
            result == any_group(world.view().scene.entities, picks_of(self.view().selection)),
    {
        let picks: Vec<Pick> = self.selection.picks();
        let mut i: usize = 0;
        while i < picks.len()
            invariant
                i <= picks@.len(),
                picks@ == picks_of(self.view().selection),
                forall|k: int|
                    0 <= k < i ==> !((#[trigger] picks@[k]) is Entity && group_at(
                        world.view().scene.entities,
                        picks@[k]->Entity_0,
                    )),
            decreases picks@.len() - i,
        {
            match picks[i] {
                Pick::Entity(id) => {
                    if is_group(&world.scene.entities, id) {
                        assert(picks@[i as int] is Entity && picks@[i as int]->Entity_0 == id);
                        return true;
                    }
                },
                _ => {},
            }
            i = i + 1;
        }
        false
    }

    /// Whether any of the things selected is an entity.
    fn has_entity(&self) -> (result: bool)
        ensures
            result == any_entity(picks_of(self.view().selection)),
    {
        let picks: Vec<Pick> = self.selection.picks();
        let mut i: usize = 0;
        while i < picks.len()
            invariant
                i <= picks@.len(),
                picks@ == picks_of(self.view().selection),
                forall|k: int| 0 <= k < i ==> !((#[trigger] picks@[k]) is Entity),
            decreases picks@.len() - i,
        {
            match picks[i] {
                Pick::Entity(_) => {
                    assert(picks@[i as int] is Entity);
                    return true;
                },
                _ => {},
            }
            i = i + 1;
        }
        false
    }

    /// Puts a body of water in the world, and selects it.
    fn put_water(&mut self, world: &mut World, standing: Transform, material: u32)
        requires
            old(self).wf(),
            old(world).wf(),
        ensures
            final(self).wf(),
            final(world).wf(),
            (final(self).view(), final(world).view(), None::<Asked>) == on_water(
                old(self).view(),
                old(world).view(),
                standing, material,
            ),
    {
        proof {
            reveal(on_water);
        }
        self.history.begin("water", world);
        let made: Vec<Pick> = water(world, standing, material);
        self.take_made(world, &made);
    }

    /// Puts a block in the world, and selects it.
    fn put_block(&mut self, world: &mut World, standing: Transform)
        requires
            old(self).wf(),
            old(world).wf(),
        ensures
            final(self).wf(),
            final(world).wf(),
            (final(self).view(), final(world).view(), None::<Asked>) == on_block(
                old(self).view(),
                old(world).view(),
                standing,
            ),
    {
        proof {
            reveal(on_block);
        }
        self.history.begin("block", world);
        let made: Vec<Pick> = block(world, standing);
        self.take_made(world, &made);
    }

    /// Puts a decal in the world, and selects it.
    fn put_decal(&mut self, world: &mut World, standing: Transform)
        requires
            old(self).wf(),
            old(world).wf(),
        ensures
            final(self).wf(),
            final(world).wf(),
            (final(self).view(), final(world).view(), None::<Asked>) == on_decal(
                old(self).view(),
                old(world).view(),
                standing,
            ),
    {
        proof {
            reveal(on_decal);
        }
        self.history.begin("decal", world);
        let made: Vec<Pick> = decal(world, standing);
        self.take_made(world, &made);
    }

    /// Hangs an entity off another, as one record.
    fn hang_one(&mut self, world: &mut World, child: EntityId, parent: EntityId, inside: Transform)
        requires
            old(self).wf(),
            old(world).wf(),
        ensures
            final(self).wf(),
            final(world).wf(),
            (final(self).view(), final(world).view(), None::<Asked>) == on_hang(
                old(self).view(),
                old(world).view(),
                child, parent, inside,
            ),
    {
        proof {
            reveal(on_hang);
        }
        self.history.begin("hang", world);
        hang(world, child, parent, inside);
    }

    /// Takes a step back, or forward again.
    fn step(&mut self, world: &World, back: bool)
        requires
            old(self).wf(),
            world.wf(),
        ensures
            final(self).wf(),
            (final(self).view(), world.view(), None::<Asked>) == if back {
                on_undo(old(self).view(), world.view())
            } else {
                on_redo(old(self).view(), world.view())
            },
    {
        proof {
            reveal(on_undo);
            reveal(on_redo);
        }
        if back {
            self.restore = self.history.undo(world);
        } else {
            self.restore = self.history.redo();
        }
    }

    /// Asks for a mode, and writes the play down when one is starting.
    fn set_mode(&mut self, world: &World, editing: bool) -> (result: Option<Request>)
        requires
            old(self).wf(),
            world.wf(),
        ensures
            final(self).wf(),
            (final(self).view(), world.view(), request_view(result)) == on_edit(
                old(self).view(),
                world.view(),
                editing,
            ),
    {
        proof {
            reveal(on_edit);
        }
        if !editing {
            self.history.hold("play", world);
        }
        Some(Request::Mode(editing))
    }

    /// Asks for the entities selected to be put into a new group.
    fn ask_group(&self, world: &World) -> (result: Option<Request>)
        ensures
            (self.view(), world.view(), request_view(result)) == on_group(
                self.view(),
                world.view(),
            ),
    {
        proof {
            reveal(on_group);
        }
        if self.has_entity() {
            Some(Request::Group)
        } else {
            None
        }
    }

    /// Asks for the groups selected to be taken apart.
    fn ask_ungroup(&self, world: &World) -> (result: Option<Request>)
        ensures
            (self.view(), world.view(), request_view(result)) == on_ungroup(
                self.view(),
                world.view(),
            ),
    {
        proof {
            reveal(on_ungroup);
        }
        if self.has_group(world) {
            Some(Request::Ungroup)
        } else {
            None
        }
    }

    /// Puts the entities selected into a new group, as one record, and
    /// selects the group. Where the group stands and where they stand seen
    /// from it was reckoned before.
    pub fn group(
        &mut self,
        world: &mut World,
        standing: Transform,
        insides: &Vec<(EntityId, Transform)>,
    )
        requires
            old(self).wf(),
            old(world).wf(),
        ensures
            final(self).wf(),
            final(world).wf(),
            (final(self).view(), final(world).view()) == with_group(
                old(self).view(),
                old(world).view(),
                standing,
                insides@,
            ),
    {
        if !self.has_entity() {
            return;
        }
        let picks: Vec<Pick> = self.selection.picks();
        self.history.begin("group", world);
        let made: Vec<Pick> = group(&mut world.scene.entities, &picks, standing, insides);
        self.take_made(world, &made);
    }

    /// Takes the groups selected apart, as one record, and selects what was
    /// in them. Where that stands without them was reckoned before.
    pub fn ungroup(&mut self, world: &mut World, insides: &Vec<(EntityId, Transform)>)
        requires
            old(self).wf(),
            old(world).wf(),
        ensures
            final(self).wf(),
            final(world).wf(),
            (final(self).view(), final(world).view()) == without_groups(
                old(self).view(),
                old(world).view(),
                insides@,
            ),
    {
        if !self.has_group(world) {
            return;
        }
        let picks: Vec<Pick> = self.selection.picks();
        self.history.begin("ungroup", world);
        let released: Vec<Pick> = ungroup(&mut world.scene.entities, &picks, insides);
        self.select_all(world, &released);
    }

    /// Does what needs nothing but a word: what is selected, what the gizmo
    /// and the brush do, what is written, opened and coded.
    fn apply_small(&mut self, world: &World, change: &Change) -> (result: Option<Request>)
        requires
            old(self).wf(),
            match change {
                Change::Select(_) => true,
                Change::Toggle(_) => true,
                Change::Rename => true,
                Change::Tool(_) => true,
                Change::Brush(_) => true,
                Change::Stroke { .. } => true,
                Change::Reopen(_) => true,
                Change::Write(_) => true,
                Change::Open(_) => true,
                Change::Code(_) => true,
                _ => false,
            },
        ensures
            final(self).wf(),
            (final(self).view(), world.view(), request_view(result)) == on_word(
                old(self).view(),
                world.view(),
                change.view(),
            ),
    {
        proof {
            reveal(on_word);
        }
        match change {
            Change::Select(pick) => {
                self.selection.set(world, *pick);
                None
            },
            Change::Toggle(pick) => {
                self.selection.toggle(world, *pick);
                None
            },
            Change::Rename => {
                self.rename = true;
                None
            },
            Change::Tool(tool) => {
                self.tool = *tool;
                self.brushing = false;
                None
            },
            Change::Brush(out) => {
                self.brushing = *out;
                None
            },
            Change::Stroke { radius, strength } => {
                self.stroke = Stroke::within(*radius, *strength);
                None
            },
            Change::Write(name) => {
                self.scene = name.clone();
                Some(Request::Run(plus("scene.write ", name.as_str())))
            },
            Change::Open(name) => Some(Request::Open(name.clone())),
            Change::Reopen(name) => Some(Request::Reopen(name.clone())),
            Change::Code(name) => Some(Request::Run(plus("code.open ", name.as_str()))),
            _ => None,
        }
    }

    /// Does what was pressed. What is asked of whoever runs the editor, if
    /// anything is.
    #[verifier::rlimit(40)]
    pub fn apply(&mut self, world: &mut World, change: &Change) -> (result: Option<Request>)
        requires
            old(self).wf(),
            old(world).wf(),
            match change.view() {
                Pressed::Bake(_, walls) => 24 * walls.len() <= u32::MAX
                    && old(world).view().meshes.len() + 6 * walls.len() < u32::MAX,
                _ => true,
            },
        ensures
            final(self).wf(),
            final(world).wf(),
            (final(self).view(), final(world).view(), request_view(result)) == applied(
                old(self).view(),
                old(world).view(),
                change.view(),
            ),
    {
        match change {
            Change::Delete => {
                self.delete_selected(world);
                None
            },
            Change::Duplicate => {
                self.duplicate_selected(world);
                None
            },
            Change::Hang { child, parent, inside } => {
                self.hang_one(world, *child, *parent, *inside);
                None
            },
            Change::Group => self.ask_group(world),
            Change::Ungroup => self.ask_ungroup(world),
            Change::Inside(entity) => {
                self.select_inside(world, *entity);
                None
            },
            Change::Hide { entity, hidden } => {
                self.set_hidden(world, *entity, *hidden);
                None
            },
            Change::Edit(editing) => self.set_mode(world, *editing),
            Change::Undo => {
                self.step(world, true);
                None
            },
            Change::Redo => {
                self.step(world, false);
                None
            },
            Change::Show(which) => {
                self.show(world, *which);
                None
            },
            Change::Shut(which) => {
                self.shut(world, *which);
                None
            },
            Change::Inspect(name) => {
                self.inspect(world, name.as_str());
                None
            },
            Change::RenameAsset(name, to) => self.rename_asset(name.as_str(), to.as_str()),
            Change::Water { standing, material } => {
                self.put_water(world, *standing, *material);
                None
            },
            Change::Block(standing) => {
                self.put_block(world, *standing);
                None
            },
            Change::Decal(standing) => {
                self.put_decal(world, *standing);
                None
            },
            Change::Bake(name, walls) => self.bake_selected(world, name.as_str(), walls),
            Change::Light(name) => self.light(world, name.as_str()),
            Change::Drop { name, kind, standing } => self.drop_asset(
                world,
                name.as_str(),
                *kind,
                *standing,
            ),
            _ => self.apply_small(world, change),
        }
    }

    /// Takes a scene off the shelf and puts it on screen.
    fn bring(&mut self, which: usize)
        requires
            old(self).wf(),
            which < old(self).tabs@.len(),
        ensures
            final(self).wf(),
            ({
                let tab = old(self).view().shelf[which as int];
                final(self).view() == (Held {
                    shelf: old(self).view().shelf.remove(which as int),
                    place: which as nat,
                    scene: tab.name,
                    past: tab.past,
                    restore: Some(tab.scene),
                    ..old(self).view()
                })
            }),
    {
        let ghost was = self.tabs@;
        let tab: Tab = self.tabs.remove(which);
        assert(tab == was[which as int]);
        assert(tab.wf());
        assert(forall|i: int|
            0 <= i < self.tabs@.len() ==> #[trigger] self.tabs@[i] == if i < which {
                was[i]
            } else {
                was[i + 1]
            });
        assert(shelf(self.tabs@) =~= shelf(was).remove(which as int));
        self.history = tab.history;
        self.place = which;
        self.scene = tab.name;
        self.restore = Some(tab.scene);
    }

    /// Puts the scene on screen among the others that are open, as it is now.
    /// How many there are of them.
    fn set_aside(&mut self, world: &World) -> (result: usize)
        requires
            old(self).wf(),
            world.wf(),
        ensures
            tabs_wf(final(self).tabs@),
            final(self).tabs@.len() == old(self).tabs@.len() + 1,
            final(self).history.wf(),
            final(self).restore is Some ==> final(self).restore->0.wf(),
            result == final(self).tabs@.len(),
            final(self).view() == (Held {
                shelf: row(old(self).view(), world.view()),
                past: fresh_past(),
                ..old(self).view()
            }),
    {
        let ghost was = self.tabs@;
        let mut history: History = History::new(crate::history::LIMIT);
        std::mem::swap(&mut self.history, &mut history);
        let tab: Tab = Tab { name: self.scene.clone(), history, scene: world.scene.copy() };
        let ghost shelved = tab;
        self.tabs.insert(self.place, tab);
        assert(self.tabs@ == was.insert(self.place as int, shelved));
        assert(shelf(self.tabs@) =~= row(old(self).view(), world.view()));
        self.tabs.len()
    }

    /// Moves to an open scene.
    fn show(&mut self, world: &World, which: usize)
        requires
            old(self).wf(),
            world.wf(),
        ensures
            final(self).wf(),
            (final(self).view(), world.view(), None::<Asked>) == on_show(
                old(self).view(),
                world.view(),
                which as nat,
            ),
    {
        proof {
            reveal(on_show);
        }
        if which == self.place || which > self.tabs.len() {
            self.restore = None;
            return;
        }
        let _ = self.set_aside(world);
        self.bring(which);
    }

    /// Shuts an open scene.
    fn shut(&mut self, world: &World, which: usize)
        requires
            old(self).wf(),
        ensures
            final(self).wf(),
            (final(self).view(), world.view(), None::<Asked>) == on_shut(
                old(self).view(),
                world.view(),
                which as nat,
            ),
    {
        proof {
            reveal(on_shut);
        }
        let ghost was = self.tabs@;
        let len: usize = self.tabs.len();
        if len == 0 || which > len {
            self.restore = None;
            return;
        }
        if which == self.place {
            self.bring(if which < len { which } else { len - 1 });
            return;
        }
        let gone: usize = if which < self.place { which } else { which - 1 };
        let _ = self.tabs.remove(gone);
        assert(forall|i: int|
            0 <= i < self.tabs@.len() ==> #[trigger] self.tabs@[i] == if i < gone {
                was[i]
            } else {
                was[i + 1]
            });
        assert(shelf(self.tabs@) =~= shelf(was).remove(gone as int));
        if which < self.place {
            self.place = self.place - 1;
        }
        self.restore = None;
    }

    /// Opens a scene, or leaves everything as it is where there is no
    /// compiled one of that name.
    pub fn reach(&mut self, world: &World, name: &str, scene: Option<&Scene>)
        requires
            old(self).wf(),
            world.wf(),
            scene is Some ==> scene->0.wf(),
        ensures
            final(self).wf(),
            final(self).view() == match scene {
                None => old(self).view(),
                Some(scene) => reached(old(self).view(), world.view(), name@, scene.view()),
            },
    {
        match scene {
            None => {},
            Some(scene) => {
                self.selection.clear();
                if same(self.scene.as_str(), name) {
                    self.restore = None;
                    return;
                }
                match find_tab(&self.tabs, name) {
                    Some(at) => {
                        let len: usize = self.tabs.len();
                        assert(at < len);
                        let which: usize = if at < self.place { at } else { at + 1 };
                        self.show(world, which);
                    },
                    None => {
                        let place: usize = self.set_aside(world);
                        self.place = place;
                        self.scene = name.to_owned();
                        self.restore = Some(scene.copy());
                    },
                }
            },
        }
    }

    /// Opens a scene of the last run again: it stands at the end of the row,
    /// and the one on screen stays there. Nothing for a scene that is open,
    /// and nothing where there is no compiled one of that name. Once none
    /// waits, the one the last run had on screen is moved to.
    pub fn shelve(&mut self, world: &World, name: &str, scene: Option<&Scene>)
        requires
            old(self).wf(),
            world.wf(),
            scene is Some ==> scene->0.wf(),
        ensures
            final(self).wf(),
            final(self).view() == reopened(
                old(self).view(),
                world.view(),
                name@,
                match scene {
                    None => None,
                    Some(scene) => Some(scene.view()),
                },
            ),
    {
        self.put_up(name, scene);
        self.move_to_wanted(world);
    }

    /// Moves to the scene the last run had on screen, once none waits.
    fn move_to_wanted(&mut self, world: &World)
        requires
            old(self).wf(),
            world.wf(),
        ensures
            final(self).wf(),
            final(self).view() == chosen(old(self).view(), world.view()),
    {
        if self.waiting.len() > 0 {
            return;
        }
        match self.wanted.take() {
            None => {},
            Some(wanted) => {
                match find_tab(&self.tabs, wanted.as_str()) {
                    None => {},
                    Some(at) => {
                        let len: usize = self.tabs.len();
                        assert(at < len);
                        let which: usize = if at < self.place { at } else { at + 1 };
                        self.show(world, which);
                    },
                }
            },
        }
    }

    /// Puts a scene at the end of the row, unless it is open or was not
    /// compiled.
    fn put_up(&mut self, name: &str, scene: Option<&Scene>)
        requires
            old(self).wf(),
            scene is Some ==> scene->0.wf(),
        ensures
            final(self).wf(),
            final(self).view() == match scene {
                None => old(self).view(),
                Some(scene) => if row_names(old(self).view()).contains(name@) {
                    old(self).view()
                } else {
                    Held {
                        shelf: old(self).view().shelf.push(
                            Shelved { name: name@, past: fresh_past(), scene: scene.view() },
                        ),
                        ..old(self).view()
                    }
                },
            },
    {
        let ghost held = self.view();
        let ghost names = row_names(held);
        match scene {
            None => {},
            Some(scene) => {
                proof {
                    tab_is_first(held.shelf, name@, 0);
                    assert(names[held.place as int] == held.scene);
                    assert forall|i: int| 0 <= i < held.shelf.len() implies names.contains(
                        (#[trigger] held.shelf[i]).name,
                    ) by {
                        let at = if i < held.place {
                            i
                        } else {
                            i + 1
                        };
                        assert(names[at] == held.shelf[i].name);
                    }
                    assert forall|i: int| 0 <= i < names.len() implies #[trigger] names[i]
                        == held.scene || exists|k: int|
                        0 <= k < held.shelf.len() && (#[trigger] held.shelf[k]).name
                            == names[i] by {
                        if i < held.place {
                            assert(held.shelf[i].name == names[i]);
                        } else if i > held.place {
                            assert(held.shelf[i - 1].name == names[i]);
                        }
                    }
                }
                if same(self.scene.as_str(), name) {
                    return;
                }
                if find_tab(&self.tabs, name).is_none() {
                    let ghost was = self.tabs@;
                    let tab: Tab = Tab {
                        name: name.to_owned(),
                        history: History::new(crate::history::LIMIT),
                        scene: scene.copy(),
                    };
                    let ghost shelved = tab;
                    self.tabs.push(tab);
                    assert(self.tabs@ == was.push(shelved));
                    assert(shelf(self.tabs@) =~= shelf(was).push(shelved.view()));
                }
            },
        }
    }

    /// What the scenes that are open are called, in the order of the row.
    pub fn names(&self) -> (result: Vec<String>)
        requires
            self.wf(),
        ensures
            texts(result@) == row_names(self.view()),
    {
        let mut names: Vec<String> = Vec::new();
        let mut i: usize = 0;
        let ghost all = self.view().shelf.map_values(|tab: Shelved| tab.name);
        assert(texts(names@) =~= all.take(0));
        while i < self.tabs.len()
            invariant
                i <= self.tabs@.len(),
                all == self.view().shelf.map_values(|tab: Shelved| tab.name),
                texts(names@) == all.take(i as int),
            decreases self.tabs@.len() - i,
        {
            let ghost was = names@;
            names.push(self.tabs[i].name.clone());
            assert(texts(names@) =~= texts(was).push(all[i as int]));
            assert(all.take(i as int + 1) =~= all.take(i as int).push(all[i as int]));
            i = i + 1;
        }
        assert(all.take(i as int) =~= all);
        let ghost was = names@;
        assert(texts(was).len() == was.len());
        let scene: String = self.scene.clone();
        let ghost called = scene;
        names.insert(self.place, scene);
        assert(names@ == was.insert(self.place as int, called));
        assert(texts(names@) =~= all.insert(self.place as int, self.scene@));
        names
    }

    /// Selects what a scene laid down in the world came to.
    pub fn land(&mut self, world: &World, entities: &Vec<EntityId>, bodies: &Vec<BodyId>)
        requires
            old(self).wf(),
        ensures
            final(self).wf(),
            final(self).view() == having_made(
                old(self).view(),
                world.view(),
                landed_picks(entities@, bodies@),
            ),
    {
        let made: Vec<Pick> = landed(entities, bodies);
        self.take_made(world, &made);
    }

    /// Picks something in the picture: the outermost group around it, and
    /// exactly it with alt held. A ctrl-click adds to what is selected rather
    /// than replacing it.
    pub fn pick(&mut self, world: &World, pick: Pick, alt: bool, command: bool)
        requires
            old(self).wf(),
        ensures
            final(self).wf(),
            ({
                let taken = if alt {
                    pick
                } else {
                    around(world.view().scene.entities, pick)
                };
                final(self).view() == (Held {
                    selection: if command {
                        toggled(old(self).view().selection, world.view(), taken)
                    } else {
                        only(world.view(), taken)
                    },
                    ..old(self).view()
                })
            }),
    {
        let taken: Pick = if alt {
            pick
        } else {
            grouped(&world.scene.entities, pick)
        };
        if command {
            self.selection.toggle(world, taken);
        } else {
            self.selection.set(world, taken);
        }
    }

    /// Acts on play having started or stopped since the last frame: a stop
    /// closes the record that spans the play. Whether it came to a step.
    pub fn follow(&mut self, world: &World) -> (result: bool)
        requires
            old(self).wf(),
            world.wf(),
        ensures
            final(self).wf(),
            final(self).view() == followed(old(self).view(), world.view()),
            result == (!old(self).was_editing && world.editing && old(self).view().past.holding
                && crate::history::records(old(self).view().past, world.view().scene)),
    {
        let mut step: bool = false;
        if !self.was_editing && world.editing {
            step = self.history.release(world);
        }
        self.was_editing = world.editing;
        step
    }

    /// The beginning of a frame: the selection found again, and play followed.
    pub fn start(&mut self, world: &World) -> (result: bool)
        requires
            old(self).wf(),
            world.wf(),
        ensures
            final(self).wf(),
            final(self).view() == followed(
                Held {
                    selection: refreshed(old(self).view().selection, world.view()),
                    ..old(self).view()
                },
                world.view(),
            ),
    {
        self.selection.refresh(world);
        self.follow(world)
    }

    /// Whether the name field is to take the keyboard this frame. Answered,
    /// whether or not the field took it.
    pub fn take_rename(&mut self) -> (result: bool)
        requires
            old(self).wf(),
        ensures
            final(self).wf(),
            final(self).view() == (Held { rename: false, ..old(self).view() }),
            result == old(self).view().rename,
    {
        let asked: bool = self.rename;
        self.rename = false;
        asked
    }

    /// The end of a frame: a gesture nothing wrote to is a record now, and
    /// the panels are as wide as they were dragged. Whether a record was
    /// written down.
    pub fn finish(&mut self, world: &World, sizes: Sizes) -> (result: bool)
        requires
            old(self).wf(),
            world.wf(),
        ensures
            final(self).wf(),
            final(self).view() == (Held {
                past: settled(old(self).view().past, world.view().scene),
                sizes,
                ..old(self).view()
            }),
            result == (!old(self).view().past.written && !old(self).view().past.holding
                && crate::history::records(old(self).view().past, world.view().scene)),
    {
        self.sizes = sizes;
        self.history.settle(world)
    }

    /// The world to put back after a frame, if a step was taken in it.
    pub fn take_restore(&mut self) -> (result: Option<Scene>)
        requires
            old(self).wf(),
        ensures
            final(self).wf(),
            final(self).view() == (Held { restore: None, ..old(self).view() }),
            result == old(self).restore,
    {
        self.restore.take()
    }

    /// Whether anything on screen wants a frame measured: one pane, and
    /// nothing else.
    pub fn measuring(&self) -> (result: bool)
        ensures
            result == (self.view().pane == Pane::Profiler),
    {
        self.pane == Pane::Profiler
    }

    /// One scene from the last run, if the compiler has caught up with it:
    /// the first that is waiting and known. It waits no longer.
    pub fn catching_up(&mut self, known: &Vec<String>) -> (result: Option<Change>)
        requires
            old(self).wf(),
        ensures
            final(self).wf(),
            match first_known(old(self).view().waiting, texts(known@)) {
                None => result is None && final(self).view() == old(self).view(),
                Some(index) => result is Some && result->0.view() == Pressed::Reopen(
                    old(self).view().waiting[index],
                ) && final(self).view() == (Held {
                    waiting: old(self).view().waiting.remove(index),
                    ..old(self).view()
                }),
            },
    {
        let ghost was = texts(self.waiting@);
        let mut i: usize = 0;
        assert(was.skip(0) =~= was);
        while i < self.waiting.len()
            invariant
                i <= self.waiting@.len(),
                self.wf(),
                was == texts(self.waiting@),
                self.view() == old(self).view(),
                match first_known(was.skip(i as int), texts(known@)) {
                    None => first_known(was, texts(known@)) is None,
                    Some(index) => first_known(was, texts(known@)) == Some(index + i),
                },
            decreases self.waiting@.len() - i,
        {
            assert(was.skip(i as int)[0] == was[i as int]);
            assert(was.skip(i as int).drop_first() =~= was.skip(i as int + 1));
            if listed(known, self.waiting[i].as_str()) {
                let name: String = self.waiting.remove(i);
                assert(texts(self.waiting@) =~= was.remove(i as int));
                return Some(Change::Reopen(name));
            }
            i = i + 1;
        }
        None
    }

    /// Puts back what the editor was left with: the panels take the widths
    /// they were dragged to, and the scenes that were open wait, but for the
    /// one the window came up on. The one that was on screen is wanted there.
    pub fn remember(&mut self, session: &Session, scene: &str)
        requires
            old(self).wf(),
        ensures
            final(self).wf(),
            final(self).view() == (Held {
                sizes: session.panels,
                scene: if scene@.len() == 0 {
                    UNNAMED@
                } else {
                    scene@
                },
                shelf: Seq::empty(),
                place: 0,
                past: fresh_past(),
                waiting: session.view().tabs.filter(|name: Seq<char>| name != scene@),
                wanted: was_on_screen(session.view(), scene@),
                ..old(self).view()
            }),
    {
        let ghost all = texts(session.tabs@);
        let ghost wanted = |name: Seq<char>| name != scene@;
        let mut waiting: Vec<String> = Vec::new();
        let mut i: usize = 0;
        proof {
            reveal(Seq::filter);
            assert(all.take(0).filter(wanted) =~= Seq::empty());
            assert(texts(waiting@) =~= Seq::empty());
        }
        while i < session.tabs.len()
            invariant
                i <= session.tabs@.len(),
                all == texts(session.tabs@),
                wanted == (|name: Seq<char>| name != scene@),
                texts(waiting@) == all.take(i as int).filter(wanted),
            decreases session.tabs@.len() - i,
        {
            let ghost was = texts(waiting@);
            proof {
                reveal(Seq::filter);
                assert(all.take(i as int + 1).drop_last() =~= all.take(i as int));
                assert(all.take(i as int + 1).last() == all[i as int]);
            }
            if !same(session.tabs[i].as_str(), scene) {
                waiting.push(session.tabs[i].clone());
                assert(texts(waiting@) =~= was.push(all[i as int]));
            }
            i = i + 1;
        }
        assert(all.take(i as int) =~= all);
        self.sizes = session.panels;
        self.scene = if scene.is_empty() { UNNAMED.to_owned() } else { scene.to_owned() };
        self.tabs = Vec::new();
        self.place = 0;
        self.history = History::new(crate::history::LIMIT);
        assert(shelf(self.tabs@) =~= Seq::empty());
        self.waiting = waiting;
        self.wanted = if session.current < session.tabs.len() && !same(
            session.tabs[session.current].as_str(),
            scene,
        ) {
            Some(session.tabs[session.current].clone())
        } else {
            None
        };
    }
}

impl Default for Panels {
    fn default() -> (result: Panels)
        ensures
            result.wf(),
            result.view() == started(),
    {
        Panels::new()
    }
}

/// The scene a run left on screen, where that is another one than the window
/// came up on.
pub open spec fn was_on_screen(kept: Kept, scene: Seq<char>) -> Option<Seq<char>> {
    if kept.current < kept.tabs.len() && kept.tabs[kept.current as int] != scene {
        Some(kept.tabs[kept.current as int])
    } else {
        None
    }
}

/// What the panels hold once play has been followed.
pub open spec fn followed(held: Held, world: Worldly) -> Held {
    Held {
        was_editing: world.editing,
        past: if !held.was_editing && world.editing {
            released(held.past, world.scene)
        } else {
            held.past
        },
        ..held
    }
}

/// The first of several names that is known.
pub open spec fn first_known(names: Seq<Seq<char>>, known: Seq<Seq<char>>) -> Option<int>
    decreases names.len(),
{
    if names.len() == 0 {
        None
    } else if known.contains(names[0]) {
        Some(0)
    } else {
        match first_known(names.drop_first(), known) {
            None => None,
            Some(index) => Some(index + 1),
        }
    }
}

/// Whether a name is among several.
fn listed(names: &Vec<String>, name: &str) -> (result: bool)
    ensures
        result == texts(names@).contains(name@),
{
    let mut i: usize = 0;
    while i < names.len()
        invariant
            i <= names@.len(),
            forall|k: int| 0 <= k < i ==> (#[trigger] names@[k])@ != name@,
        decreases names@.len() - i,
    {
        if same(names[i].as_str(), name) {
            assert(texts(names@)[i as int] == name@);
            return true;
        }
        i = i + 1;
    }
    proof {
        if texts(names@).contains(name@) {
            let k = choose|k: int| 0 <= k < texts(names@).len() && texts(names@)[k] == name@;
            assert(names@[k]@ == name@);
        }
    }
    false
}

/// A key that does something to what is selected.
#[derive(Clone, Copy, Debug, PartialEq, Eq, Structural)]
pub enum Key {
    Z,
    Y,
    D,
    G,
    Delete,
    F2,
    Other,
}

/// A key pressed, and what was held with it.
#[derive(Clone, Copy, Debug, PartialEq, Eq, Structural)]
pub struct Press {
    pub key: Key,
    pub command: bool,
    pub shift: bool,
}

/// Whether a key was pressed with the command key held.
pub open spec fn chord(pressed: Seq<Press>, key: Key) -> bool {
    exists|i: int| 0 <= i < pressed.len() && (#[trigger] pressed[i]).key == key && pressed[i].command
}

/// Whether a key was pressed with the command and the shift key held, or
/// with the command key and no shift.
pub open spec fn shifted(pressed: Seq<Press>, key: Key, shift: bool) -> bool {
    exists|i: int|
        0 <= i < pressed.len() && (#[trigger] pressed[i]).key == key && pressed[i].command
            && pressed[i].shift == shift
}

/// Whether a key was pressed with the command key not held.
pub open spec fn plain_key(pressed: Seq<Press>, key: Key) -> bool {
    exists|i: int|
        0 <= i < pressed.len() && (#[trigger] pressed[i]).key == key && !pressed[i].command
}

/// A list with one thing more where it is wanted.
pub open spec fn with_press(so_far: Seq<Pressed>, wanted: bool, press: Pressed) -> Seq<Pressed> {
    if wanted {
        so_far.push(press)
    } else {
        so_far
    }
}

/// What the keys pressed ask for, unless a text field is taking typing. A
/// chord with a shift in it is the other chord's opposite.
pub open spec fn keys_asked(typing: bool, pressed: Seq<Press>) -> Seq<Pressed> {
    let redo = shifted(pressed, Key::Z, true) || chord(pressed, Key::Y);
    let one = with_press(Seq::empty(), redo, Pressed::Redo);
    let two = with_press(one, shifted(pressed, Key::Z, false), Pressed::Undo);
    let three = with_press(two, plain_key(pressed, Key::Delete), Pressed::Delete);
    let four = with_press(three, chord(pressed, Key::D), Pressed::Duplicate);
    let five = with_press(four, shifted(pressed, Key::G, true), Pressed::Ungroup);
    let six = with_press(five, shifted(pressed, Key::G, false), Pressed::Group);
    let seven = with_press(six, plain_key(pressed, Key::F2), Pressed::Rename);
    if typing {
        Seq::empty()
    } else {
        seven
    }
}

/// Whether a key was pressed with the command key held.
fn has_chord(pressed: &Vec<Press>, key: Key) -> (result: bool)
    ensures
        result == chord(pressed@, key),
{
    let mut i: usize = 0;
    while i < pressed.len()
        invariant
            i <= pressed@.len(),
            forall|k: int|
                0 <= k < i ==> !((#[trigger] pressed@[k]).key == key && pressed@[k].command),
        decreases pressed@.len() - i,
    {
        if pressed[i].key == key && pressed[i].command {
            assert(pressed@[i as int].key == key);
            return true;
        }
        i = i + 1;
    }
    false
}

/// Whether a key was pressed with the command key held and a shift or none.
fn has_shifted(pressed: &Vec<Press>, key: Key, shift: bool) -> (result: bool)
    ensures
        result == shifted(pressed@, key, shift),
{
    let mut i: usize = 0;
    while i < pressed.len()
        invariant
            i <= pressed@.len(),
            forall|k: int|
                0 <= k < i ==> !((#[trigger] pressed@[k]).key == key && pressed@[k].command
                    && pressed@[k].shift == shift),
        decreases pressed@.len() - i,
    {
        if pressed[i].key == key && pressed[i].command && pressed[i].shift == shift {
            assert(pressed@[i as int].key == key);
            return true;
        }
        i = i + 1;
    }
    false
}

/// Whether a key was pressed with the command key not held.
fn has_plain(pressed: &Vec<Press>, key: Key) -> (result: bool)
    ensures
        result == plain_key(pressed@, key),
{
    let mut i: usize = 0;
    while i < pressed.len()
        invariant
            i <= pressed@.len(),
            forall|k: int|
                0 <= k < i ==> !((#[trigger] pressed@[k]).key == key && !pressed@[k].command),
        decreases pressed@.len() - i,
    {
        if pressed[i].key == key && !pressed[i].command {
            assert(pressed@[i as int].key == key);
            return true;
        }
        i = i + 1;
    }
    false
}

/// Puts one more change behind others, where it is wanted.
fn put(changes: &mut Vec<Change>, wanted: bool, change: Change)
    ensures
        presses(final(changes)@) == with_press(presses(old(changes)@), wanted, change.view()),
{
    let ghost was = presses(changes@);
    let ghost press = change.view();
    if wanted {
        changes.push(change);
        assert(presses(changes@) =~= was.push(press));
    }
}

/// What the keys pressed ask for: a step back and forward, delete, duplicate,
/// group and ungroup, rename.
pub fn stepped(typing: bool, pressed: &Vec<Press>) -> (result: Vec<Change>)
    ensures
        presses(result@) == keys_asked(typing, pressed@),
{
    let mut changes: Vec<Change> = Vec::new();
    assert(presses(changes@) =~= Seq::empty());
    if typing {
        return changes;
    }
    let redo: bool = has_shifted(pressed, Key::Z, true) || has_chord(pressed, Key::Y);
    put(&mut changes, redo, Change::Redo);
    put(&mut changes, has_shifted(pressed, Key::Z, false), Change::Undo);
    put(&mut changes, has_plain(pressed, Key::Delete), Change::Delete);
    put(&mut changes, has_chord(pressed, Key::D), Change::Duplicate);
    put(&mut changes, has_shifted(pressed, Key::G, true), Change::Ungroup);
    put(&mut changes, has_shifted(pressed, Key::G, false), Change::Group);
    put(&mut changes, has_plain(pressed, Key::F2), Change::Rename);
    changes
}

/// The first name that is known is one of those waiting and known, and none
/// waiting before it is; there is none exactly where no name waiting is known.
pub proof fn the_first_known_is_first(names: Seq<Seq<char>>, known: Seq<Seq<char>>)
    ensures
        match first_known(names, known) {
            None => forall|i: int| 0 <= i < names.len() ==> !known.contains(#[trigger] names[i]),
            Some(index) => {
                &&& 0 <= index < names.len()
                &&& known.contains(names[index])
                &&& forall|i: int| 0 <= i < index ==> !known.contains(#[trigger] names[i])
            },
        },
    decreases names.len(),
{
    if names.len() > 0 && !known.contains(names[0]) {
        let rest = names.drop_first();
        the_first_known_is_first(rest, known);
        match first_known(rest, known) {
            None => {
                assert forall|i: int| 0 <= i < names.len() implies !known.contains(
                    #[trigger] names[i],
                ) by {
                    if i > 0 {
                        assert(names[i] == rest[i - 1]);
                    }
                }
            },
            Some(index) => {
                assert(names[index + 1] == rest[index]);
                assert forall|i: int| 0 <= i < index + 1 implies !known.contains(
                    #[trigger] names[i],
                ) by {
                    if i > 0 {
                        assert(names[i] == rest[i - 1]);
                    }
                }
            },
        }
    }
}

/// The scene a run left on screen is wanted again, unless the window came up on
/// it or there is no such scene.
pub proof fn the_scene_left_is_wanted(kept: Kept, scene: Seq<char>)
    ensures
        kept.current >= kept.tabs.len() ==> was_on_screen(kept, scene) is None,
        kept.current < kept.tabs.len() && kept.tabs[kept.current as int] == scene ==> was_on_screen(
            kept,
            scene,
        ) is None,
        kept.current < kept.tabs.len() && kept.tabs[kept.current as int] != scene ==> was_on_screen(
            kept,
            scene,
        ) == Some(kept.tabs[kept.current as int]),
{
}

/// A scene of the last run that was compiled stands at the end of the row from
/// then on, once and with nothing to take back; every scene that was open stays as
/// it was, and one that was not compiled changes nothing.
pub proof fn a_scene_of_the_last_run_comes_back(
    held: Held,
    world: Worldly,
    name: Seq<char>,
    scene: Described,
)
    requires
        held.place <= held.shelf.len(),
        held.waiting.len() > 0 || held.wanted is None,
    ensures
        ({
            let then = reopened(held, world, name, Some(scene));
            let open = held.scene == name || exists|i: int|
                0 <= i < held.shelf.len() && (#[trigger] held.shelf[i]).name == name;
            &&& reopened(held, world, name, None) == held
            &&& open ==> then == held
            &&& !open ==> then == (Held {
                shelf: held.shelf.push(Shelved { name, past: fresh_past(), scene }),
                ..held
            })
        }),
{
    let names = held.shelf.map_values(|tab: Shelved| tab.name);
    let all = row_names(held);
    let open = held.scene == name || exists|i: int|
        0 <= i < held.shelf.len() && (#[trigger] held.shelf[i]).name == name;
    if open {
        if held.scene == name {
            assert(all[held.place as int] == name);
        } else {
            let i = choose|i: int| 0 <= i < held.shelf.len() && (#[trigger] held.shelf[i]).name
                == name;
            assert(names[i] == name);
            if i < held.place {
                assert(all[i] == name);
            } else {
                assert(all[i + 1] == name);
            }
        }
        assert(all.contains(name));
    } else if all.contains(name) {
        let k = choose|k: int| 0 <= k < all.len() && all[k] == name;
        if k < held.place {
            assert(held.shelf[k].name == all[k]);
        } else if k > held.place {
            assert(held.shelf[k - 1].name == all[k]);
        }
    }
}

/// Once no scene waits, the one wanted is on screen where it is open, and no
/// longer wanted either way.
pub proof fn the_wanted_scene_is_moved_to(held: Held, world: Worldly)
    requires
        held.place <= held.shelf.len(),
        held.waiting.len() == 0,
        held.wanted is Some,
    ensures
        ({
            let then = chosen(held, world);
            let open = exists|i: int|
                0 <= i < held.shelf.len() && (#[trigger] held.shelf[i]).name == held.wanted->0;
            &&& then.wanted is None
            &&& open ==> then.scene == held.wanted->0 && then.restore is Some
            &&& !open ==> then == (Held { wanted: None, ..held })
        }),
{
    reveal(on_show);
    tab_is_first(held.shelf, held.wanted->0, 0);
    let at = tab_named(held.shelf, held.wanted->0, 0);
    if at is Some {
        let which = in_row(held, at->0);
        let all = row(Held { wanted: None, ..held }, world);
        assert(all[which as int] == held.shelf[at->0 as int]);
    }
}

/// Opening a scene that is open moves to it and leaves it as it was; opening the
/// one on screen leaves it there. Nothing stays selected.
pub proof fn opening_moves_to_what_is_open(
    held: Held,
    world: Worldly,
    name: Seq<char>,
    scene: Described,
    at: int,
)
    requires
        held.place <= held.shelf.len(),
    ensures
        ({
            let then = reached(held, world, name, scene);
            &&& then.selection.len() == 0
            &&& held.scene == name ==> then == (Held {
                selection: Seq::empty(),
                restore: None,
                ..held
            })
            &&& held.scene != name && 0 <= at < held.shelf.len() && held.shelf[at].name == name && (
            forall|i: int| 0 <= i < at ==> (#[trigger] held.shelf[i]).name != name) ==> {
                &&& then.scene == name
                &&& then.past == held.shelf[at].past
                &&& then.restore == Some(held.shelf[at].scene)
                &&& then.shelf.len() == held.shelf.len()
            }
        }),
{
    reveal(on_show);
    tab_is_first(held.shelf, name, 0);
    if held.scene != name && 0 <= at < held.shelf.len() && held.shelf[at].name == name && (forall|
        i: int,
    | 0 <= i < at ==> (#[trigger] held.shelf[i]).name != name) {
        let found = tab_named(held.shelf, name, 0)->0;
        assert(found == at) by {
            if found < at {
                assert(held.shelf[found as int].name != name);
            } else if found > at {
                assert(held.shelf[at].name != name);
            }
        }
        let which = in_row(held, found);
        let bare = Held { selection: Seq::empty(), ..held };
        assert(row(bare, world)[which as int] == held.shelf[at]);
    }
}

/// The record of a play is closed when the world is edited again after it, and
/// by nothing else; what was editing last frame is always what it is now.
pub proof fn play_is_followed(held: Held, world: Worldly)
    ensures
        followed(held, world).was_editing == world.editing,
        world.editing && !held.was_editing ==> followed(held, world).past == released(
            held.past,
            world.scene,
        ),
        !world.editing || held.was_editing ==> followed(held, world).past == held.past,
        followed(held, world) == (Held {
            past: followed(held, world).past,
            was_editing: world.editing,
            ..held
        }),
{
}

/// An asset's name keeps its folder when its last part becomes something else.
pub proof fn a_renamed_asset_keeps_its_folder(folder: Seq<char>, last: Seq<char>, to: Seq<char>)
    requires
        !last.contains('/'),
    ensures
        renamed_last(folder + seq!['/'] + last, to) == folder + seq!['/'] + to,
{
    crate::make::the_last_part_is_the_stem(folder, last);
    let name = folder + seq!['/'] + last;
    assert(name.take(name.len() - last.len()) =~= folder + seq!['/']);
}

/// Each pane is called what it shows.
pub proof fn panes_are_called_what_they_show(one: Pane)
    ensures
        one == Pane::Console ==> one.said() == "console"@,
        one == Pane::Statistics ==> one.said() == "statistics"@,
        one == Pane::Assets ==> one.said() == "assets"@,
        one == Pane::Settings ==> one.said() == "settings"@,
        one == Pane::Profiler ==> one.said() == "profiler"@,
{
}

/// The editor starts on an unnamed world with nothing selected, nothing to take
/// back and nothing open beside it: the console up, the tool that moves in hand,
/// the brush away, four wide and a little over a third hard, and sixty-four steps
/// back to be kept.
pub proof fn how_the_editor_starts()
    ensures
        started().selection.len() == 0,
        started().scene == "edited"@,
        started().shelf.len() == 0,
        started().place == 0,
        started().pane == Pane::Console,
        started().tool == Tool::Move,
        !started().brushing,
        started().stroke.radius == 0x4080_0000u32,
        started().stroke.strength == 0x3eb3_3333u32,
        !started().rename,
        started().restore is None,
        started().past.records.len() == 0,
        started().past.done == 0,
        started().past.open is None,
        !started().past.holding,
        started().past.limit == 64,
        started().sizes.left == 240,
        started().sizes.right == 320,
        started().sizes.bottom == 220,
        started().waiting.len() == 0,
        started().wanted is None,
{
}

/// Shutting the scene on screen brings up the one after it in the row, or the one
/// before it where there is none after; shutting another leaves the one on screen
/// there. The last scene stays open.
pub proof fn what_comes_up_when_a_scene_is_shut(held: Held, world: Worldly, which: nat)
    requires
        held.place <= held.shelf.len(),
        which <= held.shelf.len(),
    ensures
        ({
            let then = on_shut(held, world, which).0;
            let len = held.shelf.len();
            let place = held.place as int;
            &&& len == 0 ==> then == (Held { restore: None, ..held })
            &&& len > 0 && which == held.place && place < len ==> {
                &&& then.scene == held.shelf[place].name
                &&& then.past == held.shelf[place].past
                &&& then.restore == Some(held.shelf[place].scene)
            }
            &&& len > 0 && which == held.place && place == len ==> {
                &&& then.scene == held.shelf[len - 1].name
                &&& then.past == held.shelf[len - 1].past
                &&& then.restore == Some(held.shelf[len - 1].scene)
            }
            &&& len > 0 && which != held.place ==> then.scene == held.scene && then.past
                == held.past && then.restore is None
            &&& then.selection == held.selection
            &&& on_shut(held, world, which).1 == world
            &&& on_shut(held, world, which).2 is None
        }),
{
    reveal(on_shut);
}

/// Moving to a scene of the row puts that one on screen as it was left, with what
/// can be taken back in it; moving to the one on screen, or past the end of the
/// row, changes nothing.
pub proof fn what_moving_to_a_scene_does(held: Held, world: Worldly, which: nat)
    requires
        held.place <= held.shelf.len(),
    ensures
        ({
            let then = on_show(held, world, which).0;
            let tab = if which < held.place {
                held.shelf[which as int]
            } else {
                held.shelf[which - 1]
            };
            &&& which == held.place || which > held.shelf.len() ==> then == (Held {
                restore: None,
                ..held
            })
            &&& which != held.place && which <= held.shelf.len() ==> {
                &&& then.scene == tab.name
                &&& then.past == tab.past
                &&& then.restore == Some(tab.scene)
                &&& then.place == which
                &&& then.shelf.len() == held.shelf.len()
            }
            &&& on_show(held, world, which).1 == world
            &&& on_show(held, world, which).2 is None
        }),
{
    reveal(on_show);
}

} // verus!
