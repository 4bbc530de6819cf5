//! A section of the inspector: the rows it shows of what is picked, and what
//! writing them comes to.
//!
//! A row is a fact of the world or a field of a record. What is written goes to
//! the thing shown and to everything else picked of its kind, after the world
//! as it stood was written down.

use vstd::prelude::*;
use vstd::string::*;
use crate::edit::{
    driver_of, first_driving, moved, place, rename, renamed, replaced_is_sound, Bodies,
};
use crate::history::{
    after_that, before_that, sound as past_sound, undone, what_was_done_can_be_undone, History, Past,
};
use crate::inspector::{
    a_change_is_spread_where_it_was_made, all_spread, has_row, inspect, kin, moved_all,
    moved_among, noted_in, nothing_moved, rowed, said_spread, same_kind, spread, step, step_said,
    written, Edit, Moved, Section,
};
use crate::select::Pick;
use crate::table::{
    lives, living, living_resolves, replaced, sheet_put, sound, standing_alike, thing_alike,
    thing_at, Handle, Thing,
};
use crate::tree::{parent, parent_of};
use crate::value::{copy_sheet, said_all, said_alike, sheet_alike, sheets_alike, Said, Value};
use crate::world::{
    asset_put, asset_sheet, identity, plain_entity, same_world, Body, BodyId, BodyKind, Described,
    Entity, EntityId, Joint, JointId, JointKind, Light, LightKind, Scene, ShapeKind, Stage,
    Transform, Triple, World, Worldly, MAX_BODIES, MAX_ENTITIES, MAX_JOINTS,
};

verus! {

/// Which of an entity's records holds the rest of its look.
pub const LOOK: usize = 0;

/// Which of an entity's records holds the rest of its lamp.
pub const LAMP: usize = 1;

/// Which of an entity's records holds the rest of its emitter.
pub const THROWER: usize = 2;

/// Which of an entity's records holds the rest of its ground.
pub const LAND: usize = 3;

/// Which of an entity's records holds the rest of its decal.
pub const PAINT: usize = 4;

/// Which of an entity's records holds the fields of every record that was
/// declared, one after the other in the order they were.
pub const RECORDS: usize = 5;

/// Which of a body's records holds the rest of what the solver reads.
pub const SOLID: usize = 0;

/// Which of a joint's records holds its numbers.
pub const TIE: usize = 0;

/// The word a row says, or the one held where it says none.
pub open spec fn word_in(rows: Seq<Said>, i: int, held: u32) -> u32 {
    match rows[i] {
        Said::Word(word) if 0 <= i < rows.len() => word,
        _ => held,
    }
}

/// The fraction a row says, or the one held where it says none.
pub open spec fn float_in(rows: Seq<Said>, i: int, held: u32) -> u32 {
    match rows[i] {
        Said::Float(bits) if 0 <= i < rows.len() => bits,
        _ => held,
    }
}

/// The truth a row says, or the one held where it says none.
pub open spec fn bool_in(rows: Seq<Said>, i: int, held: bool) -> bool {
    match rows[i] {
        Said::Bool(truth) if 0 <= i < rows.len() => truth,
        _ => held,
    }
}

/// The mesh a row says, or the one held where it says none.
pub open spec fn mesh_in(rows: Seq<Said>, i: int, held: u32) -> u32 {
    match rows[i] {
        Said::Mesh(id) if 0 <= i < rows.len() => id,
        _ => held,
    }
}

/// The material a row says, or the one held where it says none.
pub open spec fn material_in(rows: Seq<Said>, i: int, held: u32) -> u32 {
    match rows[i] {
        Said::Material(id) if 0 <= i < rows.len() => id,
        _ => held,
    }
}

/// The three numbers a row says, or those held where it says none.
pub open spec fn triple_in(rows: Seq<Said>, i: int, held: Triple) -> Triple {
    match rows[i] {
        Said::Place(three) if 0 <= i < rows.len() => three,
        Said::Color(three) if 0 <= i < rows.len() => three,
        _ => held,
    }
}

/// The text a row says, or the one held where it says none.
pub open spec fn text_in(rows: Seq<Said>, i: int, held: Seq<char>) -> Seq<char> {
    match rows[i] {
        Said::Text(text) if 0 <= i < rows.len() => text,
        _ => held,
    }
}

fn word_at(rows: &Vec<Value>, i: usize, held: u32) -> (result: u32)
    ensures
        result == word_in(said_all(rows@), i as int, held),
{
    if i < rows.len() {
        assert(said_all(rows@)[i as int] == rows@[i as int].view());
        match &rows[i] {
            Value::Word(word) => *word,
            _ => held,
        }
    } else {
        held
    }
}

fn float_at(rows: &Vec<Value>, i: usize, held: u32) -> (result: u32)
    ensures
        result == float_in(said_all(rows@), i as int, held),
{
    if i < rows.len() {
        assert(said_all(rows@)[i as int] == rows@[i as int].view());
        match &rows[i] {
            Value::Float(bits) => *bits,
            _ => held,
        }
    } else {
        held
    }
}

fn bool_at(rows: &Vec<Value>, i: usize, held: bool) -> (result: bool)
    ensures
        result == bool_in(said_all(rows@), i as int, held),
{
    if i < rows.len() {
        assert(said_all(rows@)[i as int] == rows@[i as int].view());
        match &rows[i] {
            Value::Bool(truth) => *truth,
            _ => held,
        }
    } else {
        held
    }
}

fn mesh_at(rows: &Vec<Value>, i: usize, held: u32) -> (result: u32)
    ensures
        result == mesh_in(said_all(rows@), i as int, held),
{
    if i < rows.len() {
        assert(said_all(rows@)[i as int] == rows@[i as int].view());
        match &rows[i] {
            Value::Mesh(id) => *id,
            _ => held,
        }
    } else {
        held
    }
}

fn material_at(rows: &Vec<Value>, i: usize, held: u32) -> (result: u32)
    ensures
        result == material_in(said_all(rows@), i as int, held),
{
    if i < rows.len() {
        assert(said_all(rows@)[i as int] == rows@[i as int].view());
        match &rows[i] {
            Value::Material(id) => *id,
            _ => held,
        }
    } else {
        held
    }
}

fn triple_at(rows: &Vec<Value>, i: usize, held: Triple) -> (result: Triple)
    ensures
        result == triple_in(said_all(rows@), i as int, held),
{
    if i < rows.len() {
        assert(said_all(rows@)[i as int] == rows@[i as int].view());
        match &rows[i] {
            Value::Place(three) => *three,
            Value::Color(three) => *three,
            _ => held,
        }
    } else {
        held
    }
}

fn text_at(rows: &Vec<Value>, i: usize, held: &str) -> (result: String)
    ensures
        result@ == text_in(said_all(rows@), i as int, held@),
{
    if i < rows.len() {
        assert(said_all(rows@)[i as int] == rows@[i as int].view());
        match &rows[i] {
            Value::Text(text) => text.as_str().to_owned(),
            _ => held.to_owned(),
        }
    } else {
        held.to_owned()
    }
}

/// The rows of where a thing stands.
pub open spec fn stand_said(held: Transform) -> Seq<Said> {
    seq![Said::Place(held.position), Said::Turn(held.rotation), Said::Place(held.scale)]
}

/// Where a thing stands by its rows.
pub open spec fn stand_told(held: Transform, rows: Seq<Said>) -> Transform {
    Transform {
        position: triple_in(rows, 0, held.position),
        rotation: match rows[1] {
            Said::Turn(turn) if 1 < rows.len() => turn,
            _ => held.rotation,
        },
        scale: triple_in(rows, 2, held.scale),
    }
}

/// Where a thing stands by its rows.
pub fn stand_of(held: Transform, rows: &Vec<Value>) -> (result: Transform)
    ensures
        result == stand_told(held, said_all(rows@)),
{
    let mut told: Transform = Transform {
        position: triple_at(rows, 0, held.position),
        rotation: held.rotation,
        scale: triple_at(rows, 2, held.scale),
    };
    if rows.len() > 1 {
        assert(said_all(rows@)[1] == rows@[1].view());
        match &rows[1] {
            Value::Turn(turn) => {
                told.rotation = *turn;
            },
            _ => {},
        }
    }
    told
}

/// The rows of the world's own settings, its sky apart.
pub open spec fn stage_said(held: Stage) -> Seq<Said> {
    seq![
        Said::Color(held.clear),
        Said::Place(held.light),
        Said::Color(held.ambient),
        Said::Place(held.gravity),
    ]
}

/// The world's own settings by their rows.
pub open spec fn stage_told(held: Stage, rows: Seq<Said>) -> Stage {
    Stage {
        clear: triple_in(rows, 0, held.clear),
        light: triple_in(rows, 1, held.light),
        ambient: triple_in(rows, 2, held.ambient),
        gravity: triple_in(rows, 3, held.gravity),
    }
}

/// The rows of a section that are facts of an entity.
pub open spec fn entity_said(held: Entity, section: Section) -> Seq<Said> {
    match section {
        Section::Placing => stand_said(held.transform),
        Section::Look => seq![Said::Mesh(held.mesh), Said::Material(held.material)],
        Section::Lamp => seq![
            Said::Word(held.light.kind.number()),
            Said::Float(held.light.range),
            Said::Float(held.light.outer),
        ],
        Section::Thrower => seq![Said::Word(held.emitter)],
        Section::Land => seq![Said::Word(held.terrain)],
        Section::Paint => seq![Said::Word(held.decal)],
        Section::Painted => seq![Said::Bool(held.takes_decals)],
        _ => Seq::empty(),
    }
}

/// An entity by the rows of a section, where it stands apart.
pub open spec fn entity_told(held: Entity, section: Section, rows: Seq<Said>) -> Entity {
    match section {
        Section::Look => Entity {
            mesh: mesh_in(rows, 0, held.mesh),
            material: material_in(rows, 1, held.material),
            ..held
        },
        Section::Lamp => Entity {
            light: Light {
                kind: LightKind::told(word_in(rows, 0, held.light.kind.number())),
                range: float_in(rows, 1, held.light.range),
                outer: float_in(rows, 2, held.light.outer),
            },
            ..held
        },
        Section::Thrower => Entity { emitter: word_in(rows, 0, held.emitter), ..held },
        Section::Land => Entity { terrain: word_in(rows, 0, held.terrain), ..held },
        Section::Paint => Entity { decal: word_in(rows, 0, held.decal), ..held },
        Section::Painted => Entity { takes_decals: bool_in(rows, 0, held.takes_decals), ..held },
        _ => held,
    }
}

/// Which of an entity's records holds the rest of a section, if one does.
pub open spec fn entity_record(section: Section) -> Option<usize> {
    match section {
        Section::Look => Some(LOOK),
        Section::Lamp => Some(LAMP),
        Section::Thrower => Some(THROWER),
        Section::Land => Some(LAND),
        Section::Paint => Some(PAINT),
        Section::Records => Some(RECORDS),
        _ => None,
    }
}

/// The rows of a section that are facts of a body.
pub open spec fn body_said(held: Body, section: Section) -> Seq<Said> {
    match section {
        Section::Placing => stand_said(held.transform),
        Section::Solid => seq![
            Said::Word(held.kind.number()),
            Said::Word(held.shape.number()),
            Said::Mesh(held.collider),
            Said::Bool(held.sensor),
            Said::Bool(held.wet),
            Said::Entity(held.entity),
        ],
        _ => Seq::empty(),
    }
}

/// A body by the rows of a section, where it stands apart.
pub open spec fn body_told(held: Body, section: Section, rows: Seq<Said>) -> Body {
    match section {
        Section::Solid => Body {
            kind: BodyKind::told(word_in(rows, 0, held.kind.number())),
            shape: ShapeKind::told(word_in(rows, 1, held.shape.number())),
            collider: mesh_in(rows, 2, held.collider),
            sensor: bool_in(rows, 3, held.sensor),
            wet: bool_in(rows, 4, held.wet),
            ..held
        },
        _ => held,
    }
}

/// The rows of a section that are facts of a joint.
pub open spec fn joint_said(held: Joint, section: Section) -> Seq<Said> {
    match section {
        Section::Tie => seq![
            Said::Word(held.kind.number()),
            Said::Body(held.first),
            Said::Body(held.second),
        ],
        _ => Seq::empty(),
    }
}

/// A joint by the rows of a section.
pub open spec fn joint_told(held: Joint, section: Section, rows: Seq<Said>) -> Joint {
    match section {
        Section::Tie => Joint {
            kind: JointKind::told(word_in(rows, 0, held.kind.number())),
            ..held
        },
        _ => held,
    }
}

/// What the fields of one of several records hold, if there is such a one.
pub open spec fn rest_of(sheets: Seq<Seq<Said>>, record: Option<usize>) -> Seq<Said> {
    match record {
        Some(record) if record < sheets.len() => sheets[record as int],
        _ => Seq::empty(),
    }
}

/// Records with what the fields of one of them hold written, if there is such
/// a one.
pub open spec fn rest_told(sheets: Seq<Seq<Said>>, record: Option<usize>, rest: Seq<Said>) -> Seq<
    Seq<Said>,
> {
    match record {
        Some(record) => sheet_put(sheets, record as nat, rest),
        None => sheets,
    }
}

/// The rows a section shows of what is picked.
pub open spec fn rows_of(world: Worldly, pick: Pick, section: Section) -> Seq<Said> {
    let scene = world.scene;
    match pick {
        Pick::Nothing => if section == Section::World {
            stage_said(scene.stage) + scene.sky
        } else {
            Seq::empty()
        },
        Pick::Entity(id) => if !lives(scene.entities, id) {
            Seq::empty()
        } else if section == Section::Naming {
            seq![Said::Text(thing_at(scene.entities, id).name)]
        } else {
            let thing = thing_at(scene.entities, id);
            entity_said(thing.facts, section) + rest_of(thing.sheets, entity_record(section))
        },
        Pick::Body(id) => if !lives(scene.bodies, id) {
            Seq::empty()
        } else if section == Section::Naming {
            seq![Said::Text(thing_at(scene.bodies, id).name)]
        } else {
            let thing = thing_at(scene.bodies, id);
            body_said(thing.facts, section) + rest_of(
                thing.sheets,
                if section == Section::Solid {
                    Some(SOLID)
                } else {
                    None
                },
            )
        },
        Pick::Joint(id) => if !lives(scene.joints, id) {
            Seq::empty()
        } else if section == Section::Naming {
            seq![Said::Text(thing_at(scene.joints, id).name)]
        } else {
            let thing = thing_at(scene.joints, id);
            joint_said(thing.facts, section) + rest_of(
                thing.sheets,
                if section == Section::Tie {
                    Some(TIE)
                } else {
                    None
                },
            )
        },
        Pick::Material(id) => if section == Section::Coat {
            asset_sheet(world.materials, id)
        } else {
            Seq::empty()
        },
        Pick::Model(_) => Seq::empty(),
    }
}

/// Appends the fields of a record behind the rows of a section.
fn behind(rows: &mut Vec<Value>, rest: Vec<Value>)
    ensures
        said_all(final(rows)@) == said_all(old(rows)@) + said_all(rest@),
{
    let ghost was = rows@;
    let ghost more = rest@;
    let mut rest: Vec<Value> = rest;
    rows.append(&mut rest);
    assert(said_all(rows@) =~= said_all(was) + said_all(more));
}

/// The rows of where a thing stands.
fn stand_rows(held: Transform) -> (result: Vec<Value>)
    ensures
        said_all(result@) == stand_said(held),
{
    let rows: Vec<Value> = vec![
        Value::Place(held.position),
        Value::Turn(held.rotation),
        Value::Place(held.scale),
    ];
    assert(said_all(rows@) =~= stand_said(held));
    rows
}

/// The rows of a section that are facts of an entity.
fn entity_rows(held: Entity, section: Section) -> (result: Vec<Value>)
    ensures
        said_all(result@) == entity_said(held, section),
{
    let rows: Vec<Value> = match section {
        Section::Placing => stand_rows(held.transform),
        Section::Look => vec![Value::Mesh(held.mesh), Value::Material(held.material)],
        Section::Lamp => vec![
            Value::Word(held.light.kind.place()),
            Value::Float(held.light.range),
            Value::Float(held.light.outer),
        ],
        Section::Thrower => vec![Value::Word(held.emitter)],
        Section::Land => vec![Value::Word(held.terrain)],
        Section::Paint => vec![Value::Word(held.decal)],
        Section::Painted => vec![Value::Bool(held.takes_decals)],
        _ => Vec::new(),
    };
    assert(said_all(rows@) =~= entity_said(held, section));
    rows
}

/// Which of an entity's records holds the rest of a section, if one does.
fn record_of(section: Section) -> (result: Option<usize>)
    ensures
        result == entity_record(section),
{
    match section {
        Section::Look => Some(LOOK),
        Section::Lamp => Some(LAMP),
        Section::Thrower => Some(THROWER),
        Section::Land => Some(LAND),
        Section::Paint => Some(PAINT),
        Section::Records => Some(RECORDS),
        _ => None,
    }
}

/// The one row of a name.
fn name_row(name: &str) -> (result: Vec<Value>)
    ensures
        said_all(result@) == seq![Said::Text(name@)],
{
    let rows: Vec<Value> = vec![Value::Text(name.to_owned())];
    assert(said_all(rows@) =~= seq![Said::Text(name@)]);
    rows
}

/// The rows a section shows of an entity.
fn rows_entity(world: &World, id: EntityId, section: Section) -> (result: Vec<Value>)
    ensures
        said_all(result@) == rows_of(world.view(), Pick::Entity(id), section),
{
    match world.scene.entities.get(id) {
        None => {
            let none: Vec<Value> = Vec::new();
            assert(said_all(none@) =~= Seq::empty());
            none
        },
        Some(facts) => {
            if section == Section::Naming {
                return name_row(world.scene.entities.name(id));
            }
            let mut rows: Vec<Value> = entity_rows(facts, section);
            match record_of(section) {
                Some(record) => behind(&mut rows, world.scene.entities.sheet(id, record)),
                None => {
                    assert(said_all(rows@) + Seq::empty() =~= said_all(rows@));
                },
            }
            rows
        },
    }
}

/// The rows a section shows of a body.
fn rows_body(world: &World, id: BodyId, section: Section) -> (result: Vec<Value>)
    ensures
        said_all(result@) == rows_of(world.view(), Pick::Body(id), section),
{
    match world.scene.bodies.get(id) {
        None => {
            let none: Vec<Value> = Vec::new();
            assert(said_all(none@) =~= Seq::empty());
            none
        },
        Some(facts) => {
            if section == Section::Naming {
                return name_row(world.scene.bodies.name(id));
            }
            let mut rows: Vec<Value> = match section {
                Section::Placing => stand_rows(facts.transform),
                Section::Solid => vec![
                    Value::Word(facts.kind.place()),
                    Value::Word(facts.shape.place()),
                    Value::Mesh(facts.collider),
                    Value::Bool(facts.sensor),
                    Value::Bool(facts.wet),
                    Value::Entity(facts.entity),
                ],
                _ => Vec::new(),
            };
            assert(said_all(rows@) =~= body_said(facts, section));
            if section == Section::Solid {
                behind(&mut rows, world.scene.bodies.sheet(id, SOLID));
            } else {
                assert(said_all(rows@) + Seq::empty() =~= said_all(rows@));
            }
            rows
        },
    }
}

/// The rows a section shows of a joint.
fn rows_joint(world: &World, id: JointId, section: Section) -> (result: Vec<Value>)
    ensures
        said_all(result@) == rows_of(world.view(), Pick::Joint(id), section),
{
    match world.scene.joints.get(id) {
        None => {
            let none: Vec<Value> = Vec::new();
            assert(said_all(none@) =~= Seq::empty());
            none
        },
        Some(facts) => {
            if section == Section::Naming {
                return name_row(world.scene.joints.name(id));
            }
            let mut rows: Vec<Value> = match section {
                Section::Tie => vec![
                    Value::Word(facts.kind.place()),
                    Value::Body(facts.first),
                    Value::Body(facts.second),
                ],
                _ => Vec::new(),
            };
            assert(said_all(rows@) =~= joint_said(facts, section));
            if section == Section::Tie {
                behind(&mut rows, world.scene.joints.sheet(id, TIE));
            } else {
                assert(said_all(rows@) + Seq::empty() =~= said_all(rows@));
            }
            rows
        },
    }
}

/// The rows a section shows of what is picked.
pub fn rows(world: &World, pick: Pick, section: Section) -> (result: Vec<Value>)
    ensures
        said_all(result@) == rows_of(world.view(), pick, section),
{
    let none: Vec<Value> = Vec::new();
    assert(said_all(none@) =~= Seq::empty());
    match pick {
        Pick::Nothing => {
            if section != Section::World {
                return none;
            }
            let stage: Stage = world.scene.stage;
            let mut rows: Vec<Value> = vec![
                Value::Color(stage.clear),
                Value::Place(stage.light),
                Value::Color(stage.ambient),
                Value::Place(stage.gravity),
            ];
            assert(said_all(rows@) =~= stage_said(stage));
            behind(&mut rows, copy_sheet(&world.scene.sky));
            rows
        },
        Pick::Entity(id) => rows_entity(world, id, section),
        Pick::Body(id) => rows_body(world, id, section),
        Pick::Joint(id) => rows_joint(world, id, section),
        Pick::Material(id) => {
            if section == Section::Coat {
                world.materials.sheet(id)
            } else {
                none
            }
        },
        Pick::Model(_) => none,
    }
}

/// The other place of the first thing among several that a pick is, if it is
/// one of them.
pub open spec fn place_among(places: Seq<(Pick, Transform)>, pick: Pick) -> Option<Transform>
    decreases places.len(),
{
    if places.len() == 0 {
        None
    } else if places[0].0 == pick {
        Some(places[0].1)
    } else {
        place_among(places.drop_first(), pick)
    }
}

/// The other place of the first thing among several that a pick is.
fn find_place(places: &Vec<(Pick, Transform)>, pick: Pick) -> (result: Option<Transform>)
    ensures
        result == place_among(places@, pick),
{
    let ghost all = places@;
    let mut i: usize = 0;
    assert(all.skip(0) =~= all);
    while i < places.len()
        invariant
            i <= places@.len(),
            all == places@,
            place_among(all, pick) == place_among(all.skip(i as int), pick),
        decreases places@.len() - i,
    {
        assert(all.skip(i as int)[0] == all[i as int]);
        assert(all.skip(i as int).drop_first() =~= all.skip(i as int + 1));
        if places[i].0 == pick {
            return Some(places[i].1);
        }
        i = i + 1;
    }
    None
}

/// What moves when a pick is placed: an entity itself, and what a body drives.
pub open spec fn mover(scene: Described, pick: Pick) -> Pick {
    match pick {
        Pick::Body(id) => if lives(scene.bodies, id) {
            Pick::Entity(thing_at(scene.bodies, id).facts.entity)
        } else {
            Pick::Nothing
        },
        _ => pick,
    }
}

/// Whether what moves when a pick is placed hangs off something, so that it has
/// one place in the world and another seen from there.
pub open spec fn hangs(scene: Described, pick: Pick) -> bool {
    match mover(scene, pick) {
        Pick::Entity(id) => parent_of(scene.entities, id).some(),
        _ => false,
    }
}

/// The other place of a pick that is to stand somewhere in its own terms: for
/// an entity the place in the world, and for a body where what it drives
/// stands seen from what that hangs off. It is the same place where nothing
/// hangs off anything; where something does, it is among those reckoned.
pub open spec fn other_place(
    scene: Described,
    pick: Pick,
    own: Transform,
    places: Seq<(Pick, Transform)>,
) -> Option<Transform> {
    if hangs(scene, pick) {
        place_among(places, pick)
    } else {
        Some(own)
    }
}

/// The other place of a pick that is to stand somewhere in its own terms.
fn find_other(
    scene: &Scene,
    pick: Pick,
    own: Transform,
    places: &Vec<(Pick, Transform)>,
) -> (result: Option<Transform>)
    ensures
        result == other_place(scene.view(), pick, own, places@),
{
    let hung: bool = match pick {
        Pick::Entity(id) => parent(&scene.entities, id).is_some(),
        Pick::Body(id) => match scene.bodies.get(id) {
            Some(facts) => parent(&scene.entities, facts.entity).is_some(),
            None => false,
        },
        _ => false,
    };
    if hung {
        find_place(places, pick)
    } else {
        Some(own)
    }
}

/// A scene with a pick put where its rows say, and everything describing it
/// with it; as it was where the other place of it was not reckoned.
pub open spec fn scene_placed(
    scene: Described,
    pick: Pick,
    held: Transform,
    rows: Seq<Said>,
    places: Seq<(Pick, Transform)>,
) -> Described {
    let own = stand_told(held, rows);
    match other_place(scene, pick, own, places) {
        None => scene,
        Some(other) => match pick {
            Pick::Entity(_) => moved(scene, pick, other, own),
            _ => moved(scene, pick, own, other),
        },
    }
}

/// A thing by the rows of a section.
pub open spec fn entity_put(thing: Thing<Entity>, section: Section, rows: Seq<Said>) -> Thing<
    Entity,
> {
    Thing {
        facts: entity_told(thing.facts, section, rows),
        sheets: rest_told(
            thing.sheets,
            entity_record(section),
            rows.skip(entity_said(thing.facts, section).len() as int),
        ),
        ..thing
    }
}

/// A body by the rows of a section.
pub open spec fn body_put(thing: Thing<Body>, section: Section, rows: Seq<Said>) -> Thing<Body> {
    if section == Section::Solid {
        Thing {
            facts: body_told(thing.facts, section, rows),
            sheets: sheet_put(thing.sheets, SOLID as nat, rows.skip(6)),
            ..thing
        }
    } else {
        thing
    }
}

/// A joint by the rows of a section.
pub open spec fn joint_put(thing: Thing<Joint>, section: Section, rows: Seq<Said>) -> Thing<Joint> {
    if section == Section::Tie {
        Thing {
            facts: joint_told(thing.facts, section, rows),
            sheets: sheet_put(thing.sheets, TIE as nat, rows.skip(3)),
            ..thing
        }
    } else {
        thing
    }
}

/// A world with the rows of a section of what is picked written.
pub open spec fn rows_put(
    world: Worldly,
    pick: Pick,
    section: Section,
    rows: Seq<Said>,
    places: Seq<(Pick, Transform)>,
) -> Worldly {
    let scene = world.scene;
    match pick {
        Pick::Nothing => if section == Section::World {
            Worldly {
                scene: Described {
                    stage: stage_told(scene.stage, rows),
                    sky: rows.skip(4),
                    ..scene
                },
                ..world
            }
        } else {
            world
        },
        Pick::Entity(id) => if !lives(scene.entities, id) {
            world
        } else if section == Section::Naming {
            let name = text_in(rows, 0, thing_at(scene.entities, id).name);
            Worldly { scene: renamed(scene, pick, name), ..world }
        } else if section == Section::Placing {
            let held = thing_at(scene.entities, id).facts.transform;
            Worldly { scene: scene_placed(scene, pick, held, rows, places), ..world }
        } else {
            let thing = entity_put(thing_at(scene.entities, id), section, rows);
            Worldly {
                scene: Described { entities: replaced(scene.entities, id, thing), ..scene },
                ..world
            }
        },
        Pick::Body(id) => if !lives(scene.bodies, id) {
            world
        } else if section == Section::Naming {
            let name = text_in(rows, 0, thing_at(scene.bodies, id).name);
            Worldly { scene: renamed(scene, pick, name), ..world }
        } else if section == Section::Placing {
            let held = thing_at(scene.bodies, id).facts.transform;
            Worldly { scene: scene_placed(scene, pick, held, rows, places), ..world }
        } else {
            let thing = body_put(thing_at(scene.bodies, id), section, rows);
            Worldly {
                scene: Described { bodies: replaced(scene.bodies, id, thing), ..scene },
                ..world
            }
        },
        Pick::Joint(id) => if !lives(scene.joints, id) {
            world
        } else if section == Section::Naming {
            let name = text_in(rows, 0, thing_at(scene.joints, id).name);
            Worldly { scene: renamed(scene, pick, name), ..world }
        } else {
            let thing = joint_put(thing_at(scene.joints, id), section, rows);
            Worldly {
                scene: Described { joints: replaced(scene.joints, id, thing), ..scene },
                ..world
            }
        },
        Pick::Material(id) => if section == Section::Coat {
            Worldly { materials: asset_put(world.materials, id, rows), ..world }
        } else {
            world
        },
        Pick::Model(_) => world,
    }
}

/// The rows behind the first so many.
fn tail(rows: &Vec<Value>, from: usize) -> (result: Vec<Value>)
    requires
        from <= rows@.len(),
    ensures
        said_all(result@) == said_all(rows@).skip(from as int),
{
    let mut rest: Vec<Value> = Vec::new();
    let mut i: usize = from;
    while i < rows.len()
        invariant
            from <= i <= rows@.len(),
            rest@.len() == i - from,
            forall|k: int|
                0 <= k < rest@.len() ==> (#[trigger] rest@[k]).view() == rows@[from + k].view(),
        decreases rows@.len() - i,
    {
        rest.push(rows[i].copy());
        i = i + 1;
    }
    assert(said_all(rest@) =~= said_all(rows@).skip(from as int));
    rest
}

/// An entity by the rows of a section, where it stands apart.
fn tell_entity(held: Entity, section: Section, rows: &Vec<Value>) -> (result: Entity)
    ensures
        result == entity_told(held, section, said_all(rows@)),
{
    match section {
        Section::Look => Entity {
            mesh: mesh_at(rows, 0, held.mesh),
            material: material_at(rows, 1, held.material),
            ..held
        },
        Section::Lamp => Entity {
            light: Light {
                kind: LightKind::of(word_at(rows, 0, held.light.kind.place())),
                range: float_at(rows, 1, held.light.range),
                outer: float_at(rows, 2, held.light.outer),
            },
            ..held
        },
        Section::Thrower => Entity { emitter: word_at(rows, 0, held.emitter), ..held },
        Section::Land => Entity { terrain: word_at(rows, 0, held.terrain), ..held },
        Section::Paint => Entity { decal: word_at(rows, 0, held.decal), ..held },
        Section::Painted => Entity { takes_decals: bool_at(rows, 0, held.takes_decals), ..held },
        _ => held,
    }
}

/// How many of an entity's rows are facts.
fn facts_in(section: Section) -> (result: usize)
    ensures
        forall|held: Entity| (#[trigger] entity_said(held, section)).len() == result,
{
    match section {
        Section::Placing => 3,
        Section::Look => 2,
        Section::Lamp => 3,
        Section::Thrower => 1,
        Section::Land => 1,
        Section::Paint => 1,
        Section::Painted => 1,
        _ => 0,
    }
}

/// Puts a pick where its rows say.
fn put_place(
    world: &mut World,
    pick: Pick,
    held: Transform,
    rows: &Vec<Value>,
    places: &Vec<(Pick, Transform)>,
)
    requires
        old(world).wf(),
        pick is Entity || pick is Body,
    ensures
        final(world).wf(),
        final(world).view() == (Worldly {
            scene: scene_placed(old(world).view().scene, pick, held, said_all(rows@), places@),
            ..old(world).view()
        }),
{
    let own: Transform = stand_of(held, rows);
    match find_other(&world.scene, pick, own, places) {
        None => {},
        Some(other) => {
            match pick {
                Pick::Entity(_) => {
                    place(world, pick, other, own);
                },
                _ => {
                    place(world, pick, own, other);
                },
            }
        },
    }
}

/// Writes the rows of a section of an entity.
fn put_entity(
    world: &mut World,
    id: EntityId,
    section: Section,
    rows: &Vec<Value>,
    places: &Vec<(Pick, Transform)>,
)
    requires
        old(world).wf(),
        rows@.len() == rows_of(old(world).view(), Pick::Entity(id), section).len(),
    ensures
        final(world).wf(),
        final(world).view() == rows_put(
            old(world).view(),
            Pick::Entity(id),
            section,
            said_all(rows@),
            places@,
        ),
{
    let ghost was = world.view().scene.entities;
    let ghost said = said_all(rows@);
    match world.scene.entities.get(id) {
        None => {},
        Some(facts) => {
            if section == Section::Naming {
                let name: String = text_at(rows, 0, world.scene.entities.name(id));
                rename(world, Pick::Entity(id), name.as_str());
            } else if section == Section::Placing {
                put_place(world, Pick::Entity(id), facts.transform, rows, places);
            } else {
                let told: Entity = tell_entity(facts, section, rows);
                let ghost thing = thing_at(was, id);
                world.scene.entities.set(id, told);
                let ghost mid = world.view().scene.entities;
                assert(mid == replaced(was, id, Thing { facts: told, ..thing }));
                let many: usize = facts_in(section);
                assert(entity_said(facts, section).len() == many);
                match record_of(section) {
                    Some(record) => {
                        let rest: Vec<Value> = tail(rows, many);
                        world.scene.entities.set_sheet(id, record, rest);
                    },
                    None => {},
                }
                proof {
                    let put = entity_put(thing, section, said);
                    assert(world.view().scene.entities =~= replaced(was, id, put));
                    replaced_is_sound(was, MAX_ENTITIES as nat, id, put);
                }
            }
        },
    }
}

/// Writes the rows of a section of a body.
fn put_body(
    world: &mut World,
    id: BodyId,
    section: Section,
    rows: &Vec<Value>,
    places: &Vec<(Pick, Transform)>,
)
    requires
        old(world).wf(),
        rows@.len() == rows_of(old(world).view(), Pick::Body(id), section).len(),
    ensures
        final(world).wf(),
        final(world).view() == rows_put(
            old(world).view(),
            Pick::Body(id),
            section,
            said_all(rows@),
            places@,
        ),
{
    let ghost was = world.view().scene.bodies;
    let ghost said = said_all(rows@);
    match world.scene.bodies.get(id) {
        None => {},
        Some(facts) => {
            if section == Section::Naming {
                let name: String = text_at(rows, 0, world.scene.bodies.name(id));
                rename(world, Pick::Body(id), name.as_str());
            } else if section == Section::Placing {
                put_place(world, Pick::Body(id), facts.transform, rows, places);
            } else if section == Section::Solid {
                let told: Body = Body {
                    kind: BodyKind::of(word_at(rows, 0, facts.kind.place())),
                    shape: ShapeKind::of(word_at(rows, 1, facts.shape.place())),
                    collider: mesh_at(rows, 2, facts.collider),
                    sensor: bool_at(rows, 3, facts.sensor),
                    wet: bool_at(rows, 4, facts.wet),
                    ..facts
                };
                let ghost thing = thing_at(was, id);
                world.scene.bodies.set(id, told);
                let rest: Vec<Value> = tail(rows, 6);
                world.scene.bodies.set_sheet(id, SOLID, rest);
                proof {
                    let put = body_put(thing, section, said);
                    assert(world.view().scene.bodies =~= replaced(was, id, put));
                    replaced_is_sound(was, MAX_BODIES as nat, id, put);
                }
            } else {
                assert(replaced(was, id, thing_at(was, id)) =~= was);
            }
        },
    }
}

/// Writes the rows of a section of a joint.
fn put_joint(world: &mut World, id: JointId, section: Section, rows: &Vec<Value>)
    requires
        old(world).wf(),
        rows@.len() == rows_of(old(world).view(), Pick::Joint(id), section).len(),
    ensures
        final(world).wf(),
        forall|places: Seq<(Pick, Transform)>|
            final(world).view() == #[trigger] rows_put(
                old(world).view(),
                Pick::Joint(id),
                section,
                said_all(rows@),
                places,
            ),
{
    let ghost was = world.view().scene.joints;
    let ghost said = said_all(rows@);
    match world.scene.joints.get(id) {
        None => {},
        Some(facts) => {
            if section == Section::Naming {
                let name: String = text_at(rows, 0, world.scene.joints.name(id));
                rename(world, Pick::Joint(id), name.as_str());
            } else if section == Section::Tie {
                let told: Joint = Joint {
                    kind: JointKind::of(word_at(rows, 0, facts.kind.place())),
                    ..facts
                };
                let ghost thing = thing_at(was, id);
                world.scene.joints.set(id, told);
                let rest: Vec<Value> = tail(rows, 3);
                world.scene.joints.set_sheet(id, TIE, rest);
                proof {
                    let put = joint_put(thing, section, said);
                    assert(world.view().scene.joints =~= replaced(was, id, put));
                    replaced_is_sound(was, MAX_JOINTS as nat, id, put);
                }
            } else {
                assert(replaced(was, id, thing_at(was, id)) =~= was);
            }
        },
    }
}

/// Writes the rows of a section of what is picked.
fn put_rows(
    world: &mut World,
    pick: Pick,
    section: Section,
    rows: &Vec<Value>,
    places: &Vec<(Pick, Transform)>,
)
    requires
        old(world).wf(),
        rows@.len() == rows_of(old(world).view(), pick, section).len(),
    ensures
        final(world).wf(),
        final(world).view() == rows_put(
            old(world).view(),
            pick,
            section,
            said_all(rows@),
            places@,
        ),
{
    match pick {
        Pick::Nothing => {
            if section == Section::World {
                let stage: Stage = world.scene.stage;
                world.scene.stage =
                Stage {
                    clear: triple_at(rows, 0, stage.clear),
                    light: triple_at(rows, 1, stage.light),
                    ambient: triple_at(rows, 2, stage.ambient),
                    gravity: triple_at(rows, 3, stage.gravity),
                };
                world.scene.sky = tail(rows, 4);
            }
        },
        Pick::Entity(id) => put_entity(world, id, section, rows, places),
        Pick::Body(id) => put_body(world, id, section, rows, places),
        Pick::Joint(id) => put_joint(world, id, section, rows),
        Pick::Material(id) => {
            if section == Section::Coat {
                world.materials.set_sheet(id, copy_sheet(rows));
            }
        },
        Pick::Model(_) => {},
    }
}

/// Whether a change in a section is written to everything picked of its kind:
/// a name, the world's settings and a material are one thing's own.
pub open spec fn shared(section: Section) -> bool {
    section != Section::Naming && section != Section::World && section != Section::Coat
}

/// A world with the changes made to what is shown written to the first so many
/// others, where they are of its kind.
pub open spec fn others_written(
    world: Worldly,
    pick: Pick,
    others: Seq<Pick>,
    section: Section,
    edits: Seq<Moved>,
    places: Seq<(Pick, Transform)>,
    count: nat,
) -> Worldly
    decreases count,
{
    if count == 0 {
        world
    } else {
        let so_far = others_written(
            world,
            pick,
            others,
            section,
            edits,
            places,
            (count - 1) as nat,
        );
        let other = others[count - 1];
        if kin(other, pick) {
            let mine = all_spread(rows_of(so_far, other, section), edits);
            rows_put(so_far, other, section, mine, places)
        } else {
            so_far
        }
    }
}

/// A world with what a frame of the panel changed in a section written: to what
/// is shown, and then to everything else picked of its kind.
pub open spec fn section_written(
    world: Worldly,
    pick: Pick,
    others: Seq<Pick>,
    section: Section,
    now: Seq<Said>,
    places: Seq<(Pick, Transform)>,
) -> Worldly {
    let held = rows_of(world, pick, section);
    let edits = moved_among(held, now, held.len());
    let shown = rows_put(world, pick, section, written(held, now), places);
    if edits.len() == 0 {
        world
    } else if shared(section) {
        others_written(shown, pick, others, section, edits, places, others.len())
    } else {
        shown
    }
}

/// Spreading changes nothing of how many rows there are.
proof fn spreading_keeps_the_rows(mine: Seq<Said>, edits: Seq<Moved>)
    ensures
        all_spread(mine, edits).len() == mine.len(),
    decreases edits.len(),
{
    if edits.len() > 0 {
        spreading_keeps_the_rows(mine, edits.drop_last());
    }
}

/// Whether the rows of a section that are facts each say a thing of their own
/// kind, and a word that is in its list.
pub open spec fn fits(pick: Pick, section: Section, rows: Seq<Said>) -> bool {
    match (pick, section) {
        (Pick::Nothing, Section::World) => rows.len() >= 4 ==> rows[0] is Color && rows[1] is Place
            && rows[2] is Color && rows[3] is Place,
        (Pick::Material(_), _) => true,
        (Pick::Model(_), _) => true,
        (_, Section::Naming) => rows.len() >= 1 ==> rows[0] is Text,
        (Pick::Entity(_), Section::Placing) => rows.len() >= 3 ==> rows[0] is Place
            && rows[1] is Turn && rows[2] is Place,
        (Pick::Body(_), Section::Placing) => rows.len() >= 3 ==> rows[0] is Place
            && rows[1] is Turn && rows[2] is Place,
        (Pick::Entity(_), Section::Look) => rows.len() >= 2 ==> rows[0] is Mesh
            && rows[1] is Material,
        (Pick::Entity(_), Section::Lamp) => rows.len() >= 3 ==> word_below(rows[0], 3)
            && rows[1] is Float && rows[2] is Float,
        (Pick::Entity(_), Section::Thrower) => rows.len() >= 1 ==> rows[0] is Word,
        (Pick::Entity(_), Section::Land) => rows.len() >= 1 ==> rows[0] is Word,
        (Pick::Entity(_), Section::Paint) => rows.len() >= 1 ==> rows[0] is Word,
        (Pick::Entity(_), Section::Painted) => rows.len() >= 1 ==> rows[0] is Bool,
        (Pick::Body(_), Section::Solid) => rows.len() >= 6 ==> word_below(rows[0], 3) && word_below(
            rows[1],
            3,
        ) && rows[2] is Mesh && rows[3] is Bool && rows[4] is Bool && rows[5] is Entity,
        (Pick::Joint(_), Section::Tie) => rows.len() >= 3 ==> word_below(rows[0], 3)
            && rows[1] is Body && rows[2] is Body,
        _ => true,
    }
}

/// Whether a row says one of the first so many words of a list.
pub open spec fn word_below(said: Said, many: u32) -> bool {
    match said {
        Said::Word(word) => word < many,
        _ => false,
    }
}

/// Whether a pick can be put where its rows say: the other place of it was
/// reckoned where it has another.
pub open spec fn reckoned(
    scene: Described,
    pick: Pick,
    section: Section,
    places: Seq<(Pick, Transform)>,
) -> bool {
    section == Section::Placing && hangs(scene, pick) ==> place_among(places, pick) is Some
}

/// Whether a world's tables are as tables are, and the material that stands for
/// nothing has no fields.
pub open spec fn in_order(world: Worldly) -> bool {
    &&& sound(world.scene.entities, MAX_ENTITIES as nat)
    &&& sound(world.scene.bodies, MAX_BODIES as nat)
    &&& sound(world.scene.joints, MAX_JOINTS as nat)
    &&& world.materials.len() > 0
    &&& world.materials[0].sheet == Seq::<Said>::empty()
}

/// Whether the same things are alive in two scenes, each hanging off the same
/// thing and driving the same thing.
pub open spec fn same_bones(left: Described, right: Described) -> bool {
    &&& forall|id: Handle| #[trigger] lives(right.entities, id) == lives(left.entities, id)
    &&& forall|id: Handle| #[trigger] lives(right.bodies, id) == lives(left.bodies, id)
    &&& forall|id: Handle| #[trigger] lives(right.joints, id) == lives(left.joints, id)
    &&& forall|id: Handle|
        lives(left.entities, id) ==> (#[trigger] thing_at(right.entities, id)).facts.parent
            == thing_at(left.entities, id).facts.parent
    &&& forall|id: Handle|
        lives(left.bodies, id) ==> (#[trigger] thing_at(right.bodies, id)).facts.entity == thing_at(
            left.bodies,
            id,
        ).facts.entity
}

/// What hangs goes on hanging where the same things are alive and hang off the
/// same things.
proof fn same_bones_hang_alike(left: Described, right: Described, pick: Pick)
    requires
        same_bones(left, right),
    ensures
        hangs(right, pick) == hangs(left, pick),
{
    let moving = mover(left, pick);
    match pick {
        Pick::Body(id) => {
            assert(lives(right.bodies, id) == lives(left.bodies, id));
            if lives(left.bodies, id) {
                assert(thing_at(right.bodies, id).facts.entity == thing_at(
                    left.bodies,
                    id,
                ).facts.entity);
            }
        },
        _ => {},
    }
    assert(mover(right, pick) == moving);
    match moving {
        Pick::Entity(id) => {
            assert(lives(right.entities, id) == lives(left.entities, id));
            if lives(left.entities, id) {
                let above = thing_at(left.entities, id).facts.parent;
                assert(thing_at(right.entities, id).facts.parent == above);
                assert(lives(right.entities, above) == lives(left.entities, above));
            }
        },
        _ => {},
    }
}

/// The body driving an entity is alive, and drives it.
proof fn a_driver_drives(bodies: Bodies, ids: Seq<BodyId>, entity: EntityId)
    requires
        forall|i: int| 0 <= i < ids.len() ==> lives(bodies, #[trigger] ids[i]),
    ensures
        match first_driving(bodies, ids, entity) {
            Some(body) => lives(bodies, body) && thing_at(bodies, body).facts.entity == entity,
            None => true,
        },
    decreases ids.len(),
{
    if ids.len() > 0 {
        let less = ids.drop_first();
        assert forall|i: int| 0 <= i < less.len() implies lives(bodies, #[trigger] less[i]) by {
            assert(less[i] == ids[i + 1]);
        }
        a_driver_drives(bodies, less, entity);
    }
}

/// The body driving an entity is alive, and drives it.
pub proof fn the_driver_drives(bodies: Bodies, entity: EntityId)
    requires
        bodies.len() <= u32::MAX,
    ensures
        match driver_of(bodies, entity) {
            Some(body) => lives(bodies, body) && thing_at(bodies, body).facts.entity == entity,
            None => true,
        },
{
    living_resolves(bodies);
    assert forall|i: int| 0 <= i < living(bodies).len() implies lives(
        bodies,
        #[trigger] living(bodies)[i],
    ) by {
        assert(living(bodies).contains(living(bodies)[i]));
    }
    a_driver_drives(bodies, living(bodies), entity);
}

/// Placing something leaves everything alive and hanging as it was, and moves
/// nothing else of its kind.
proof fn placing_keeps_the_bones(
    world: Worldly,
    pick: Pick,
    held: Transform,
    rows: Seq<Said>,
    places: Seq<(Pick, Transform)>,
)
    requires
        in_order(world),
        pick is Entity || pick is Body,
    ensures
        ({
            let after = scene_placed(world.scene, pick, held, rows, places);
            &&& same_bones(world.scene, after)
            &&& sound(after.entities, MAX_ENTITIES as nat)
            &&& sound(after.bodies, MAX_BODIES as nat)
            &&& after.joints == world.scene.joints
            &&& forall|other: Handle|
                pick is Entity && lives(world.scene.entities, other) && pick != Pick::Entity(other)
                    ==> #[trigger] thing_at(after.entities, other) == thing_at(
                    world.scene.entities,
                    other,
                )
            &&& forall|other: Handle|
                pick is Body && lives(world.scene.bodies, other) && pick != Pick::Body(other)
                    ==> #[trigger] thing_at(after.bodies, other) == thing_at(
                    world.scene.bodies,
                    other,
                )
        }),
{
    let scene = world.scene;
    let own = stand_told(held, rows);
    match other_place(scene, pick, own, places) {
        None => {},
        Some(other) => {
            match pick {
                Pick::Entity(id) => {
                    the_driver_drives(scene.bodies, id);
                    let thing = thing_at(scene.entities, id);
                    let put = Thing { facts: Entity { transform: own, ..thing.facts }, ..thing };
                    replaced_is_sound(scene.entities, MAX_ENTITIES as nat, id, put);
                    match driver_of(scene.bodies, id) {
                        Some(body) => {
                            let under = thing_at(scene.bodies, body);
                            let set = Thing {
                                facts: Body { transform: other, ..under.facts },
                                ..under
                            };
                            replaced_is_sound(scene.bodies, MAX_BODIES as nat, body, set);
                        },
                        None => {},
                    }
                },
                Pick::Body(body) => {
                    let under = thing_at(scene.bodies, body);
                    let set = Thing { facts: Body { transform: own, ..under.facts }, ..under };
                    replaced_is_sound(scene.bodies, MAX_BODIES as nat, body, set);
                    let id = under.facts.entity;
                    let thing = thing_at(scene.entities, id);
                    let put = Thing { facts: Entity { transform: other, ..thing.facts }, ..thing };
                    replaced_is_sound(scene.entities, MAX_ENTITIES as nat, id, put);
                },
                _ => {},
            }
        },
    }
}

/// Writing rows leaves everything alive and hanging as it was.
proof fn writing_keeps_the_bones(
    world: Worldly,
    pick: Pick,
    section: Section,
    rows: Seq<Said>,
    places: Seq<(Pick, Transform)>,
)
    requires
        in_order(world),
    ensures
        in_order(rows_put(world, pick, section, rows, places)),
        same_bones(world.scene, rows_put(world, pick, section, rows, places).scene),
{
    let scene = world.scene;
    match pick {
        Pick::Entity(id) => if lives(scene.entities, id) {
            let thing = thing_at(scene.entities, id);
            if section == Section::Naming {
                let put = Thing { name: text_in(rows, 0, thing.name), ..thing };
                replaced_is_sound(scene.entities, MAX_ENTITIES as nat, id, put);
            } else if section == Section::Placing {
                placing_keeps_the_bones(world, pick, thing.facts.transform, rows, places);
            } else {
                let put = entity_put(thing, section, rows);
                replaced_is_sound(scene.entities, MAX_ENTITIES as nat, id, put);
            }
        },
        Pick::Body(id) => if lives(scene.bodies, id) {
            let thing = thing_at(scene.bodies, id);
            if section == Section::Naming {
                let put = Thing { name: text_in(rows, 0, thing.name), ..thing };
                replaced_is_sound(scene.bodies, MAX_BODIES as nat, id, put);
            } else if section == Section::Placing {
                placing_keeps_the_bones(world, pick, thing.facts.transform, rows, places);
            } else {
                let put = body_put(thing, section, rows);
                replaced_is_sound(scene.bodies, MAX_BODIES as nat, id, put);
            }
        },
        Pick::Joint(id) => if lives(scene.joints, id) {
            let thing = thing_at(scene.joints, id);
            if section == Section::Naming {
                let put = Thing { name: text_in(rows, 0, thing.name), ..thing };
                replaced_is_sound(scene.joints, MAX_JOINTS as nat, id, put);
            } else {
                let put = joint_put(thing, section, rows);
                replaced_is_sound(scene.joints, MAX_JOINTS as nat, id, put);
            }
        },
        _ => {},
    }
}

/// Writing the rows of one thing leaves those of another of its kind.
proof fn writing_leaves_the_others(
    world: Worldly,
    pick: Pick,
    other: Pick,
    section: Section,
    rows: Seq<Said>,
    places: Seq<(Pick, Transform)>,
)
    requires
        in_order(world),
        kin(other, pick),
        other != pick,
    ensures
        rows_of(rows_put(world, pick, section, rows, places), other, section) == rows_of(
            world,
            other,
            section,
        ),
{
    let scene = world.scene;
    let after = rows_put(world, pick, section, rows, places).scene;
    writing_keeps_the_bones(world, pick, section, rows, places);
    match (pick, other) {
        (Pick::Entity(id), Pick::Entity(one)) => {
            assert(lives(after.entities, one) == lives(scene.entities, one));
            if lives(scene.entities, id) && section == Section::Placing {
                let held = thing_at(scene.entities, id).facts.transform;
                placing_keeps_the_bones(world, pick, held, rows, places);
            }
            if lives(scene.entities, one) && lives(scene.entities, id) {
                assert(one.slot != id.slot);
                assert(thing_at(after.entities, one) == thing_at(scene.entities, one));
            }
        },
        (Pick::Body(id), Pick::Body(one)) => {
            assert(lives(after.bodies, one) == lives(scene.bodies, one));
            if lives(scene.bodies, id) && section == Section::Placing {
                let held = thing_at(scene.bodies, id).facts.transform;
                placing_keeps_the_bones(world, pick, held, rows, places);
            }
            if lives(scene.bodies, one) && lives(scene.bodies, id) {
                assert(one.slot != id.slot);
                assert(thing_at(after.bodies, one) == thing_at(scene.bodies, one));
            }
        },
        (Pick::Joint(id), Pick::Joint(one)) => {
            assert(lives(after.joints, one) == lives(scene.joints, one));
            if lives(scene.joints, one) && lives(scene.joints, id) {
                assert(one.slot != id.slot);
            }
        },
        _ => {},
    }
}

/// What is written to an entity is what its rows then say.
proof fn an_entity_says_its_rows(
    thing: Thing<Entity>,
    id: EntityId,
    section: Section,
    rows: Seq<Said>,
)
    requires
        section != Section::Placing && section != Section::Naming,
        rows.len() == (entity_said(thing.facts, section) + rest_of(
            thing.sheets,
            entity_record(section),
        )).len(),
        fits(Pick::Entity(id), section, rows),
    ensures
        ({
            let put = entity_put(thing, section, rows);
            entity_said(put.facts, section) + rest_of(put.sheets, entity_record(section)) == rows
        }),
{
    let put = entity_put(thing, section, rows);
    let many = entity_said(thing.facts, section).len() as int;
    assert(entity_said(put.facts, section) =~= rows.take(many));
    assert(rest_of(put.sheets, entity_record(section)) =~= rows.skip(many));
    assert(rows.take(many) + rows.skip(many) =~= rows);
}

/// What is written to a body is what its rows then say.
proof fn a_body_says_its_rows(thing: Thing<Body>, id: BodyId, rows: Seq<Said>)
    requires
        rows.len() == 6 + rest_of(thing.sheets, Some(SOLID)).len(),
        fits(Pick::Body(id), Section::Solid, rows),
        rows[5] == Said::Entity(thing.facts.entity),
    ensures
        ({
            let put = body_put(thing, Section::Solid, rows);
            body_said(put.facts, Section::Solid) + rest_of(put.sheets, Some(SOLID)) == rows
        }),
{
    let put = body_put(thing, Section::Solid, rows);
    assert(body_said(put.facts, Section::Solid) =~= rows.take(6));
    assert(rest_of(put.sheets, Some(SOLID)) =~= rows.skip(6));
    assert(rows.take(6) + rows.skip(6) =~= rows);
}

/// What is written to a joint is what its rows then say.
proof fn a_joint_says_its_rows(thing: Thing<Joint>, id: JointId, rows: Seq<Said>)
    requires
        rows.len() == 3 + rest_of(thing.sheets, Some(TIE)).len(),
        fits(Pick::Joint(id), Section::Tie, rows),
        rows[1] == Said::Body(thing.facts.first),
        rows[2] == Said::Body(thing.facts.second),
    ensures
        ({
            let put = joint_put(thing, Section::Tie, rows);
            joint_said(put.facts, Section::Tie) + rest_of(put.sheets, Some(TIE)) == rows
        }),
{
    let put = joint_put(thing, Section::Tie, rows);
    assert(joint_said(put.facts, Section::Tie) =~= rows.take(3));
    assert(rest_of(put.sheets, Some(TIE)) =~= rows.skip(3));
    assert(rows.take(3) + rows.skip(3) =~= rows);
}

/// What is written of where a thing stands is what its rows then say.
proof fn a_placed_thing_says_its_rows(
    world: Worldly,
    pick: Pick,
    rows: Seq<Said>,
    places: Seq<(Pick, Transform)>,
)
    requires
        in_order(world),
        match pick {
            Pick::Entity(id) => lives(world.scene.entities, id),
            Pick::Body(id) => lives(world.scene.bodies, id),
            _ => false,
        },
        rows.len() == 3,
        fits(pick, Section::Placing, rows),
        reckoned(world.scene, pick, Section::Placing, places),
    ensures
        rows_of(
            rows_put(world, pick, Section::Placing, rows, places),
            pick,
            Section::Placing,
        ) == rows,
{
    let scene = world.scene;
    let after = rows_put(world, pick, Section::Placing, rows, places);
    match pick {
        Pick::Entity(id) => {
            the_driver_drives(scene.bodies, id);
            let held = thing_at(scene.entities, id).facts.transform;
            let own = stand_told(held, rows);
            assert(lives(after.scene.entities, id));
            assert(thing_at(after.scene.entities, id).facts.transform == own);
            assert(rows_of(after, pick, Section::Placing) =~= stand_said(own));
            assert(stand_said(own) =~= rows);
        },
        Pick::Body(id) => {
            let held = thing_at(scene.bodies, id).facts.transform;
            let own = stand_told(held, rows);
            assert(lives(after.scene.bodies, id));
            assert(thing_at(after.scene.bodies, id).facts.transform == own);
            assert(rows_of(after, pick, Section::Placing) =~= stand_said(own));
            assert(stand_said(own) =~= rows);
        },
        _ => {},
    }
}

/// Whether rows leave a handle into the world that is a fact as it was: it is
/// picked in the picture and has no row to be changed in.
spec fn leaves_the_handles(pick: Pick, section: Section, held: Seq<Said>, rows: Seq<Said>) -> bool {
    match (pick, section) {
        (Pick::Body(_), Section::Solid) => rows.len() >= 6 ==> rows[5] == held[5],
        (Pick::Joint(_), Section::Tie) => rows.len() >= 3 ==> rows[1] == held[1] && rows[2]
            == held[2],
        _ => true,
    }
}

/// What is written to a thing is what its rows then say.
proof fn what_is_written_is_said(
    world: Worldly,
    pick: Pick,
    section: Section,
    rows: Seq<Said>,
    places: Seq<(Pick, Transform)>,
)
    requires
        in_order(world),
        rows.len() == rows_of(world, pick, section).len(),
        fits(pick, section, rows),
        reckoned(world.scene, pick, section, places),
        leaves_the_handles(pick, section, rows_of(world, pick, section), rows),
    ensures
        rows_of(rows_put(world, pick, section, rows, places), pick, section) == rows,
{
    let scene = world.scene;
    let held = rows_of(world, pick, section);
    let after = rows_put(world, pick, section, rows, places);
    match pick {
        Pick::Nothing => {
            if section == Section::World {
                assert(stage_said(after.scene.stage) =~= rows.take(4));
            }
            assert(rows_of(after, pick, section) =~= rows);
        },
        Pick::Entity(id) => {
            if !lives(scene.entities, id) {
                assert(rows =~= held);
            } else if section == Section::Placing {
                assert(rest_of(thing_at(scene.entities, id).sheets, None).len() == 0);
                a_placed_thing_says_its_rows(world, pick, rows, places);
            } else if section == Section::Naming {
                assert(rows_of(after, pick, section) =~= rows);
            } else {
                an_entity_says_its_rows(thing_at(scene.entities, id), id, section, rows);
            }
        },
        Pick::Body(id) => {
            if !lives(scene.bodies, id) {
                assert(rows =~= held);
            } else if section == Section::Placing {
                assert(rest_of(thing_at(scene.bodies, id).sheets, None).len() == 0);
                a_placed_thing_says_its_rows(world, pick, rows, places);
            } else if section == Section::Solid {
                assert(held[5] == Said::Entity(thing_at(scene.bodies, id).facts.entity));
                assert(rows[5] == held[5]);
                a_body_says_its_rows(thing_at(scene.bodies, id), id, rows);
            } else {
                assert(rows_of(after, pick, section) =~= rows);
            }
        },
        Pick::Joint(id) => {
            if !lives(scene.joints, id) {
                assert(rows =~= held);
            } else if section == Section::Tie {
                let facts = thing_at(scene.joints, id).facts;
                assert(held[1] == Said::Body(facts.first) && held[2] == Said::Body(facts.second));
                assert(rows[1] == held[1] && rows[2] == held[2]);
                a_joint_says_its_rows(thing_at(scene.joints, id), id, rows);
            } else {
                assert(rows_of(after, pick, section) =~= rows);
            }
        },
        _ => {
            assert(rows_of(after, pick, section) =~= rows);
        },
    }
}

/// The rows a section shows each say a thing of their own kind.
proof fn what_is_shown_fits(world: Worldly, pick: Pick, section: Section)
    ensures
        fits(pick, section, rows_of(world, pick, section)),
{
}

/// What is written of what is shown fits, and leaves the handles.
proof fn what_is_written_fits(pick: Pick, section: Section, held: Seq<Said>, now: Seq<Said>)
    requires
        held.len() == now.len(),
        fits(pick, section, held),
        fits(pick, section, now),
    ensures
        fits(pick, section, written(held, now)),
        leaves_the_handles(pick, section, held, written(held, now)),
{
    let rows = written(held, now);
    assert(forall|i: int|
        0 <= i < held.len() ==> #[trigger] rows[i] == if rowed(held[i]) && !said_alike(
            held[i],
            now[i],
        ) {
            now[i]
        } else {
            held[i]
        });
}

/// What is spread to another thing fits, and leaves the handles.
proof fn what_is_spread_fits(
    pick: Pick,
    other: Pick,
    section: Section,
    mine: Seq<Said>,
    held: Seq<Said>,
    now: Seq<Said>,
)
    requires
        kin(other, pick),
        held.len() == now.len(),
        fits(other, section, mine),
        fits(pick, section, held),
        fits(pick, section, now),
        held.len() > 0 && whole(pick, section, held),
    ensures
        ({
            let rows = all_spread(mine, moved_among(held, now, held.len()));
            &&& rows.len() == mine.len()
            &&& fits(other, section, rows)
            &&& leaves_the_handles(other, section, mine, rows)
        }),
{
    a_change_is_spread_where_it_was_made(mine, held, now, held.len());
    let rows = all_spread(mine, moved_among(held, now, held.len()));
    assert(forall|i: int|
        0 <= i < mine.len() ==> #[trigger] rows[i] == if i < held.len() && rowed(held[i])
            && !said_alike(held[i], now[i]) {
            said_spread(mine[i], held[i], now[i])
        } else {
            mine[i]
        });
}

/// Whether the rows of a section hold at least its facts.
spec fn whole(pick: Pick, section: Section, rows: Seq<Said>) -> bool {
    match (pick, section) {
        (Pick::Nothing, Section::World) => rows.len() >= 4,
        (Pick::Entity(_), _) => rows.len() >= entity_said(
            plain_entity(identity()),
            section,
        ).len(),
        (Pick::Body(_), Section::Placing) => rows.len() >= 3,
        (Pick::Body(_), Section::Solid) => rows.len() >= 6,
        (Pick::Joint(_), Section::Tie) => rows.len() >= 3,
        _ => true,
    }
}

/// The rows a section shows of a thing that is there hold at least its facts.
proof fn what_is_shown_is_whole(world: Worldly, pick: Pick, section: Section)
    requires
        rows_of(world, pick, section).len() > 0,
    ensures
        whole(pick, section, rows_of(world, pick, section)),
{
}

/// The changes made to what is shown reach the first so many others.
proof fn the_others_are_written(
    world: Worldly,
    pick: Pick,
    others: Seq<Pick>,
    section: Section,
    now: Seq<Said>,
    places: Seq<(Pick, Transform)>,
    count: nat,
)
    requires
        in_order(world),
        count <= others.len(),
        now.len() == rows_of(world, pick, section).len(),
        now.len() > 0,
        fits(pick, section, now),
        others.no_duplicates(),
        !others.contains(pick),
        reckoned(world.scene, pick, section, places),
        forall|i: int|
            0 <= i < others.len() && kin(#[trigger] others[i], pick) ==> reckoned(
                world.scene,
                others[i],
                section,
                places,
            ),
    ensures
        ({
            let held = rows_of(world, pick, section);
            let edits = moved_among(held, now, held.len());
            let shown = rows_put(world, pick, section, written(held, now), places);
            let after = others_written(shown, pick, others, section, edits, places, count);
            &&& in_order(after)
            &&& same_bones(world.scene, after.scene)
            &&& rows_of(after, pick, section) == written(held, now)
            &&& forall|i: int|
                0 <= i < count && kin(#[trigger] others[i], pick) ==> rows_of(
                    after,
                    others[i],
                    section,
                ) == all_spread(rows_of(world, others[i], section), edits)
            &&& forall|i: int|
                count <= i < others.len() && kin(#[trigger] others[i], pick) ==> rows_of(
                    after,
                    others[i],
                    section,
                ) == rows_of(world, others[i], section)
        }),
    decreases count,
{
    let held = rows_of(world, pick, section);
    let edits = moved_among(held, now, held.len());
    let first = written(held, now);
    let shown = rows_put(world, pick, section, first, places);
    what_is_shown_fits(world, pick, section);
    what_is_shown_is_whole(world, pick, section);
    what_is_written_fits(pick, section, held, now);
    if count == 0 {
        what_is_written_is_said(world, pick, section, first, places);
        writing_keeps_the_bones(world, pick, section, first, places);
        assert forall|i: int| 0 <= i < others.len() && kin(#[trigger] others[i], pick) implies rows_of(
            shown,
            others[i],
            section,
        ) == rows_of(world, others[i], section) by {
            assert(others.contains(others[i]));
            writing_leaves_the_others(world, pick, others[i], section, first, places);
        }
    } else {
        let less = (count - 1) as nat;
        the_others_are_written(world, pick, others, section, now, places, less);
        let so_far = others_written(shown, pick, others, section, edits, places, less);
        let after = others_written(shown, pick, others, section, edits, places, count);
        let other = others[less as int];
        if kin(other, pick) {
            let mine = rows_of(so_far, other, section);
            let rows = all_spread(mine, edits);
            what_is_shown_fits(so_far, other, section);
            what_is_spread_fits(pick, other, section, mine, held, now);
            same_bones_hang_alike(world.scene, so_far.scene, other);
            what_is_written_is_said(so_far, other, section, rows, places);
            writing_keeps_the_bones(so_far, other, section, rows, places);
            bones_carry(world.scene, so_far.scene, after.scene);
            assert(others.contains(other));
            writing_leaves_the_others(so_far, other, pick, section, rows, places);
            assert forall|i: int|
                0 <= i < others.len() && i != less && kin(#[trigger] others[i], pick) implies rows_of(
                after,
                others[i],
                section,
            ) == rows_of(so_far, others[i], section) by {
                assert(others[i] != other);
                writing_leaves_the_others(so_far, other, others[i], section, rows, places);
            }
        }
    }
}

/// Scenes with the bones of one scene have each other's.
proof fn bones_carry(first: Described, second: Described, third: Described)
    requires
        same_bones(first, second),
        same_bones(second, third),
    ensures
        same_bones(first, third),
{
    assert forall|id: Handle| lives(first.entities, id) implies (#[trigger] thing_at(
        third.entities,
        id,
    )).facts.parent == thing_at(first.entities, id).facts.parent by {
        assert(lives(second.entities, id));
        assert(thing_at(second.entities, id).facts.parent == thing_at(
            first.entities,
            id,
        ).facts.parent);
    }
    assert forall|id: Handle| lives(first.bodies, id) implies (#[trigger] thing_at(
        third.bodies,
        id,
    )).facts.entity == thing_at(first.bodies, id).facts.entity by {
        assert(lives(second.bodies, id));
        assert(thing_at(second.bodies, id).facts.entity == thing_at(
            first.bodies,
            id,
        ).facts.entity);
    }
    assert forall|id: Handle| #[trigger] lives(third.entities, id) == lives(
        first.entities,
        id,
    ) by {
        assert(lives(second.entities, id) == lives(first.entities, id));
    }
    assert forall|id: Handle| #[trigger] lives(third.bodies, id) == lives(first.bodies, id) by {
        assert(lives(second.bodies, id) == lives(first.bodies, id));
    }
    assert forall|id: Handle| #[trigger] lives(third.joints, id) == lives(first.joints, id) by {
        assert(lives(second.joints, id) == lives(first.joints, id));
    }
}

/// Whether what is to be written to a section can be: every row says a thing of
/// its own kind, nothing is picked twice, and the other place of what is to be
/// put somewhere was reckoned.
pub open spec fn writable(
    world: Worldly,
    pick: Pick,
    others: Seq<Pick>,
    section: Section,
    now: Seq<Said>,
    places: Seq<(Pick, Transform)>,
) -> bool {
    &&& fits(pick, section, now)
    &&& others.no_duplicates()
    &&& !others.contains(pick)
    &&& reckoned(world.scene, pick, section, places)
    &&& forall|i: int|
        0 <= i < others.len() && kin(#[trigger] others[i], pick) ==> reckoned(
            world.scene,
            others[i],
            section,
            places,
        )
}

/// What is changed on the panel is what the thing shown then says, and it
/// reaches everything else picked of its kind: the fields that were changed and
/// nothing else, number by number. The same things are alive, hang off the same
/// things and drive the same things.
pub proof fn a_change_reaches_everything_picked(
    world: Worldly,
    pick: Pick,
    others: Seq<Pick>,
    section: Section,
    now: Seq<Said>,
    places: Seq<(Pick, Transform)>,
)
    requires
        in_order(world),
        now.len() == rows_of(world, pick, section).len(),
        writable(world, pick, others, section, now, places),
    ensures
        ({
            let held = rows_of(world, pick, section);
            let edits = moved_among(held, now, held.len());
            let after = section_written(world, pick, others, section, now, places);
            &&& in_order(after)
            &&& same_bones(world.scene, after.scene)
            &&& rows_of(after, pick, section) == written(held, now)
            &&& shared(section) ==> forall|i: int|
                0 <= i < others.len() && kin(#[trigger] others[i], pick) ==> rows_of(
                    after,
                    others[i],
                    section,
                ) == all_spread(rows_of(world, others[i], section), edits)
            &&& !shared(section) ==> forall|i: int|
                0 <= i < others.len() && kin(#[trigger] others[i], pick) ==> rows_of(
                    after,
                    others[i],
                    section,
                ) == rows_of(world, others[i], section)
        }),
{
    let held = rows_of(world, pick, section);
    let edits = moved_among(held, now, held.len());
    if edits.len() == 0 {
        assert(written(held, now) =~= held) by {
            assert forall|i: int| 0 <= i < held.len() implies written(held, now)[i] == held[i] by {
                nothing_moved(held, now, held.len(), i);
            }
        }
        assert(edits =~= Seq::empty());
    } else {
        assert(now.len() > 0);
        the_others_are_written(world, pick, others, section, now, places, 0);
        the_others_are_written(world, pick, others, section, now, places, others.len());
    }
}

/// Two worlds that say the same show rows that say the same.
proof fn the_same_world_shows_the_same(
    left: Worldly,
    right: Worldly,
    pick: Pick,
    section: Section,
    i: int,
)
    requires
        same_world(left.scene, right.scene),
        !(pick is Material),
        0 <= i < rows_of(left, pick, section).len(),
    ensures
        rows_of(right, pick, section).len() == rows_of(left, pick, section).len(),
        said_alike(rows_of(left, pick, section)[i], rows_of(right, pick, section)[i]),
{
    match pick {
        Pick::Entity(id) => {
            let at = id.slot as int;
            assert(standing_alike(left.scene.entities[at], right.scene.entities[at]));
            let (one, other) = (
                thing_at(left.scene.entities, id),
                thing_at(right.scene.entities, id),
            );
            assert(thing_alike(one, other));
            rests_alike(one.sheets, other.sheets, entity_record(section));
        },
        Pick::Body(id) => {
            let at = id.slot as int;
            assert(standing_alike(left.scene.bodies[at], right.scene.bodies[at]));
            let (one, other) = (
                thing_at(left.scene.bodies, id),
                thing_at(right.scene.bodies, id),
            );
            assert(thing_alike(one, other));
            rests_alike(one.sheets, other.sheets, Some(SOLID));
        },
        Pick::Joint(id) => {
            let at = id.slot as int;
            assert(standing_alike(left.scene.joints[at], right.scene.joints[at]));
            let (one, other) = (
                thing_at(left.scene.joints, id),
                thing_at(right.scene.joints, id),
            );
            assert(thing_alike(one, other));
            rests_alike(one.sheets, other.sheets, Some(TIE));
        },
        _ => {},
    }
}

/// Records that say the same have the same rest.
proof fn rests_alike(left: Seq<Seq<Said>>, right: Seq<Seq<Said>>, record: Option<usize>)
    requires
        sheets_alike(left, right),
    ensures
        sheet_alike(rest_of(left, record), rest_of(right, record)),
{
    match record {
        Some(record) => if record < left.len() {
            assert(sheet_alike(left[record as int], right[record as int]));
        },
        None => {},
    }
}

/// A field with a row that was changed is among the changes.
proof fn a_change_has_a_place(held: Seq<Said>, now: Seq<Said>, count: nat) -> (place: int)
    requires
        count <= held.len(),
        held.len() == now.len(),
        moved_among(held, now, count).len() > 0,
    ensures
        0 <= place < count,
        rowed(held[place]),
        !said_alike(held[place], now[place]),
    decreases count,
{
    let last = count - 1;
    if rowed(held[last]) && !said_alike(held[last], now[last]) {
        last
    } else {
        a_change_has_a_place(held, now, (count - 1) as nat)
    }
}

/// Whatever is changed in a section that is written down can be taken back: a
/// change to a field makes the world another one, and a step back right after
/// it puts back the world it was made in, everything else picked with it.
pub proof fn a_change_is_one_step_back(
    past: Past,
    world: Worldly,
    pick: Pick,
    others: Seq<Pick>,
    section: Section,
    now: Seq<Said>,
    places: Seq<(Pick, Transform)>,
)
    requires
        in_order(world),
        now.len() == rows_of(world, pick, section).len(),
        writable(world, pick, others, section, now, places),
        moved_among(rows_of(world, pick, section), now, now.len()).len() > 0,
        past_sound(past),
        past.limit > 0,
        past.open is None,
        world.editing,
        step_said(section) is Some,
    ensures
        ({
            let after = section_written(world, pick, others, section, now, places).scene;
            let noted = noted_in(past, section, world);
            &&& !same_world(world.scene, after)
            &&& before_that(noted, after) == Some(world.scene)
            &&& after_that(undone(noted, after)) == Some(after)
        }),
{
    let held = rows_of(world, pick, section);
    let after = section_written(world, pick, others, section, now, places);
    a_change_reaches_everything_picked(world, pick, others, section, now, places);
    let at = a_change_has_a_place(held, now, now.len());
    if same_world(world.scene, after.scene) {
        the_same_world_shows_the_same(world, after, pick, section, at);
        assert(written(held, now)[at] == now[at]);
    }
    what_was_done_can_be_undone(past, step_said(section)->0, world, after.scene);
}

/// Writes the changes made to what is shown to everything else of its kind.
fn write_others(
    world: &mut World,
    pick: Pick,
    others: &Vec<Pick>,
    section: Section,
    edits: &Vec<Edit>,
    places: &Vec<(Pick, Transform)>,
)
    requires
        old(world).wf(),
    ensures
        final(world).wf(),
        final(world).view() == others_written(
            old(world).view(),
            pick,
            others@,
            section,
            moved_all(edits@),
            places@,
            others@.len(),
        ),
{
    let ghost first = world.view();
    let ghost moved = moved_all(edits@);
    let mut k: usize = 0;
    while k < others.len()
        invariant
            k <= others@.len(),
            world.wf(),
            moved == moved_all(edits@),
            world.view() == others_written(
                first,
                pick,
                others@,
                section,
                moved,
                places@,
                k as nat,
            ),
        decreases others@.len() - k,
    {
        if same_kind(others[k], pick) {
            let mut mine: Vec<Value> = rows(world, others[k], section);
            proof {
                spreading_keeps_the_rows(said_all(mine@), moved);
            }
            spread(&mut mine, edits);
            put_rows(world, others[k], section, &mine, places);
        }
        k = k + 1;
    }
}

/// Writes what a frame of the panel changed in a section: first down in the
/// history, then to the thing shown, and then to everything else picked of its
/// kind, all of it one step. `now` is what the rows say now, and `places` where
/// each thing that is put somewhere stands otherwise, @ref [`other_place`].
/// Whether anything was written.
pub fn write_section(
    world: &mut World,
    history: &mut History,
    pick: Pick,
    others: &Vec<Pick>,
    section: Section,
    now: &Vec<Value>,
    places: &Vec<(Pick, Transform)>,
) -> (result: bool)
    requires
        old(world).wf(),
        old(history).wf(),
        now@.len() == rows_of(old(world).view(), pick, section).len(),
    ensures
        final(world).wf(),
        final(history).wf(),
        ({
            let held = rows_of(old(world).view(), pick, section);
            let edits = moved_among(held, said_all(now@), held.len());
            &&& result == (edits.len() > 0)
            &&& final(history).view() == if result {
                noted_in(old(history).view(), section, old(world).view())
            } else {
                old(history).view()
            }
            &&& final(world).view() == section_written(
                old(world).view(),
                pick,
                others@,
                section,
                said_all(now@),
                places@,
            )
            &&& writable(old(world).view(), pick, others@, section, said_all(now@), places@) ==> {
                &&& rows_of(final(world).view(), pick, section) == written(held, said_all(now@))
                &&& shared(section) ==> forall|i: int|
                    0 <= i < others@.len() && kin(#[trigger] others@[i], pick) ==> rows_of(
                        final(world).view(),
                        others@[i],
                        section,
                    ) == all_spread(rows_of(old(world).view(), others@[i], section), edits)
            }
        }),
{
    let ghost was = world.view();
    let ghost want = said_all(now@);
    let ghost held = rows_of(was, pick, section);
    let ghost moved = moved_among(held, want, held.len());
    proof {
        if writable(was, pick, others@, section, want, places@) {
            a_change_reaches_everything_picked(was, pick, others@, section, want, places@);
        }
    }
    let mut shown: Vec<Value> = rows(world, pick, section);
    let edits: Vec<Edit> = inspect(&shown, now);
    assert(edits@.len() == moved.len());
    if edits.len() == 0 {
        return false;
    }
    match step(section) {
        Some(label) => {
            history.begin(label, world);
        },
        None => {},
    }
    let mut i: usize = 0;
    while i < shown.len()
        invariant
            i <= shown@.len(),
            shown@.len() == now@.len(),
            held.len() == now@.len(),
            want == said_all(now@),
            forall|k: int|
                0 <= k < i ==> (#[trigger] shown@[k]).view() == written(held, want)[k],
            forall|k: int| i <= k < held.len() ==> (#[trigger] shown@[k]).view() == held[k],
        decreases shown@.len() - i,
    {
        if has_row(&shown[i]) && !shown[i].same(&now[i]) {
            let value: Value = now[i].copy();
            shown.set(i, value);
        }
        i = i + 1;
    }
    assert(said_all(shown@) =~= written(held, want));
    put_rows(world, pick, section, &shown, places);
    if section == Section::Naming || section == Section::World || section == Section::Coat {
        return true;
    }
    write_others(world, pick, others, section, &edits, places);
    true
}

/// Whether a field can be told a value: it holds one of that kind.
pub open spec fn takes(held: Said, value: Said) -> bool {
    match (held, value) {
        (Said::Float(_), Said::Float(_)) => true,
        (Said::Place(_), Said::Place(_)) => true,
        _ => false,
    }
}

/// Whether writing one field of a section writes anything: there is such a
/// field, it can be told the value, and it does not say so already.
pub open spec fn field_moves(
    world: Worldly,
    pick: Pick,
    section: Section,
    index: int,
    value: Said,
) -> bool {
    let held = rows_of(world, pick, section);
    0 <= index < held.len() && takes(held[index], value) && !said_alike(held[index], value)
}

/// A world with one field of a section written: to a thing, and then to
/// everything else picked of its kind.
pub open spec fn field_written(
    world: Worldly,
    pick: Pick,
    others: Seq<Pick>,
    section: Section,
    index: int,
    value: Said,
) -> Worldly {
    let held = rows_of(world, pick, section);
    if field_moves(world, pick, section, index, value) {
        others_written(
            rows_put(world, pick, section, held.update(index, value), Seq::empty()),
            pick,
            others,
            section,
            seq![Moved { index, held: held[index], value }],
            Seq::empty(),
            others.len(),
        )
    } else {
        world
    }
}

/// Writes one field of a section to a thing, and to everything else picked of
/// its kind. Whether anything was written.
pub fn write_field(
    world: &mut World,
    pick: Pick,
    others: &Vec<Pick>,
    section: Section,
    index: usize,
    value: &Value,
) -> (result: bool)
    requires
        old(world).wf(),
    ensures
        final(world).wf(),
        result == field_moves(old(world).view(), pick, section, index as int, value.view()),
        final(world).view() == field_written(
            old(world).view(),
            pick,
            others@,
            section,
            index as int,
            value.view(),
        ),
{
    let mut held: Vec<Value> = rows(world, pick, section);
    let ghost was = said_all(held@);
    if index >= held.len() || held[index].same(value) {
        return false;
    }
    assert(was[index as int] == held@[index as int].view());
    let told: bool = match (&held[index], value) {
        (Value::Float(_), Value::Float(_)) => true,
        (Value::Place(_), Value::Place(_)) => true,
        _ => false,
    };
    if !told {
        return false;
    }
    let edit: Edit = Edit { index, held: held[index].copy(), value: value.copy() };
    let ghost said = edit.view();
    let edits: Vec<Edit> = vec![edit];
    assert(moved_all(edits@) =~= seq![said]);
    let now: Value = value.copy();
    held.set(index, now);
    assert(said_all(held@) =~= was.update(index as int, value.view()));
    let places: Vec<(Pick, Transform)> = Vec::new();
    assert(places@ =~= Seq::empty());
    put_rows(world, pick, section, &held, &places);
    write_others(world, pick, others, section, &edits, &places);
    true
}

/// Writing to the others leaves what is shown.
proof fn the_others_leave_what_is_shown(
    world: Worldly,
    pick: Pick,
    others: Seq<Pick>,
    section: Section,
    edits: Seq<Moved>,
    places: Seq<(Pick, Transform)>,
    count: nat,
)
    requires
        in_order(world),
        count <= others.len(),
        !others.contains(pick),
    ensures
        in_order(others_written(world, pick, others, section, edits, places, count)),
        rows_of(
            others_written(world, pick, others, section, edits, places, count),
            pick,
            section,
        ) == rows_of(world, pick, section),
    decreases count,
{
    if count > 0 {
        let less = (count - 1) as nat;
        the_others_leave_what_is_shown(world, pick, others, section, edits, places, less);
        let so_far = others_written(world, pick, others, section, edits, places, less);
        let other = others[less as int];
        assert(others.contains(other));
        if kin(other, pick) {
            let mine = all_spread(rows_of(so_far, other, section), edits);
            writing_keeps_the_bones(so_far, other, section, mine, places);
            writing_leaves_the_others(so_far, other, pick, section, mine, places);
        }
    }
}

/// A field that was written says what was written, and writing it again writes
/// nothing, where what was written is a number.
pub proof fn a_field_is_written_once(
    world: Worldly,
    pick: Pick,
    others: Seq<Pick>,
    section: Section,
    index: int,
    value: Said,
)
    requires
        in_order(world),
        !others.contains(pick),
        section != Section::Placing,
        said_alike(value, value),
    ensures
        ({
            let after = field_written(world, pick, others, section, index, value);
            &&& field_moves(world, pick, section, index, value) ==> rows_of(
                after,
                pick,
                section,
            ) == rows_of(world, pick, section).update(index, value)
            &&& !field_moves(after, pick, section, index, value)
            &&& field_written(after, pick, others, section, index, value) == after
        }),
{
    if field_moves(world, pick, section, index, value) {
        let held = rows_of(world, pick, section);
        let rows = held.update(index, value);
        let edits = seq![Moved { index, held: held[index], value }];
        let none = Seq::<(Pick, Transform)>::empty();
        let first = rows_put(world, pick, section, rows, none);
        what_is_shown_fits(world, pick, section);
        what_is_shown_is_whole(world, pick, section);
        what_is_written_is_said(world, pick, section, rows, none);
        writing_keeps_the_bones(world, pick, section, rows, none);
        the_others_leave_what_is_shown(
            first,
            pick,
            others,
            section,
            edits,
            none,
            others.len(),
        );
    }
}

/// Whether an entity is another but for its records.
pub open spec fn same_but_records(was: Thing<Entity>, now: Thing<Entity>, facts: Entity) -> bool {
    now == (Thing { sheets: now.sheets, facts, ..was })
}

/// Writing a section of an entity changes the facts that section is about and no
/// other: its look the mesh and the material it draws, its lamp how it shines,
/// its emitter, its ground and its decal the kind each is, and the tick whether
/// decals paint it. What its records hold is no fact of any of them.
pub proof fn a_section_writes_its_own_facts(
    world: Worldly,
    id: EntityId,
    rows: Seq<Said>,
    places: Seq<(Pick, Transform)>,
    mesh: u32,
    material: u32,
    word: u32,
    range: u32,
    outer: u32,
    tick: bool,
)
    requires
        in_order(world),
        lives(world.scene.entities, id),
        word < 3,
    ensures
        ({
            let pick = Pick::Entity(id);
            let was = thing_at(world.scene.entities, id);
            let look = rows_put(
                world,
                pick,
                Section::Look,
                seq![Said::Mesh(mesh), Said::Material(material)] + rows,
                places,
            ).scene.entities;
            let lamp = rows_put(
                world,
                pick,
                Section::Lamp,
                seq![Said::Word(word), Said::Float(range), Said::Float(outer)] + rows,
                places,
            ).scene.entities;
            let thrower = rows_put(
                world,
                pick,
                Section::Thrower,
                seq![Said::Word(word)] + rows,
                places,
            ).scene.entities;
            let land = rows_put(
                world,
                pick,
                Section::Land,
                seq![Said::Word(word)] + rows,
                places,
            ).scene.entities;
            let paint = rows_put(
                world,
                pick,
                Section::Paint,
                seq![Said::Word(word)] + rows,
                places,
            ).scene.entities;
            let painted = rows_put(
                world,
                pick,
                Section::Painted,
                seq![Said::Bool(tick)],
                places,
            ).scene.entities;
            let records = rows_put(world, pick, Section::Records, rows, places).scene.entities;
            let kind = if word == 0 {
                LightKind::Dark
            } else if word == 1 {
                LightKind::Point
            } else {
                LightKind::Spot
            };
            &&& same_but_records(
                was,
                thing_at(look, id),
                Entity { mesh, material, ..was.facts },
            )
            &&& same_but_records(
                was,
                thing_at(lamp, id),
                Entity { light: Light { kind, range, outer }, ..was.facts },
            )
            &&& same_but_records(
                was,
                thing_at(thrower, id),
                Entity { emitter: word, ..was.facts },
            )
            &&& same_but_records(was, thing_at(land, id), Entity { terrain: word, ..was.facts })
            &&& same_but_records(was, thing_at(paint, id), Entity { decal: word, ..was.facts })
            &&& thing_at(painted, id) == (Thing {
                facts: Entity { takes_decals: tick, ..was.facts },
                ..was
            })
            &&& same_but_records(was, thing_at(records, id), was.facts)
        }),
{
    let look = seq![Said::Mesh(mesh), Said::Material(material)] + rows;
    let lamp = seq![Said::Word(word), Said::Float(range), Said::Float(outer)] + rows;
    let one = seq![Said::Word(word)] + rows;
    let tick_row = seq![Said::Bool(tick)];
    assert(look[0] == Said::Mesh(mesh) && look[1] == Said::Material(material));
    assert(lamp[0] == Said::Word(word) && lamp[1] == Said::Float(range) && lamp[2] == Said::Float(
        outer,
    ));
    assert(one[0] == Said::Word(word));
    assert(tick_row[0] == Said::Bool(tick));
}

/// Writing a body's own fields changes how it moves, what
/// it is shaped like, what it collides as, whether it is a sensor and whether it
/// is full of fluid, and neither where it stands nor what it drives; writing a
/// joint's changes how it holds and not what; and writing the world's own changes
/// its four colors and ways.
pub proof fn the_other_sections_write_their_own_facts(
    world: Worldly,
    body: BodyId,
    joint: JointId,
    rows: Seq<Said>,
    places: Seq<(Pick, Transform)>,
    kind: u32,
    shape: u32,
    collider: u32,
    sensor: bool,
    wet: bool,
    stage: Stage,
)
    requires
        in_order(world),
        lives(world.scene.bodies, body),
        lives(world.scene.joints, joint),
        kind < 3,
        shape < 3,
    ensures
        ({
            let solid = thing_at(world.scene.bodies, body);
            let tie = thing_at(world.scene.joints, joint);
            let after = rows_put(
                world,
                Pick::Body(body),
                Section::Solid,
                seq![
                    Said::Word(kind),
                    Said::Word(shape),
                    Said::Mesh(collider),
                    Said::Bool(sensor),
                    Said::Bool(wet),
                    Said::Entity(solid.facts.entity),
                ] + rows,
                places,
            );
            let held = rows_put(
                world,
                Pick::Joint(joint),
                Section::Tie,
                seq![
                    Said::Word(kind),
                    Said::Body(tie.facts.first),
                    Said::Body(tie.facts.second),
                ] + rows,
                places,
            );
            let lit = rows_put(
                world,
                Pick::Nothing,
                Section::World,
                seq![
                    Said::Color(stage.clear),
                    Said::Place(stage.light),
                    Said::Color(stage.ambient),
                    Said::Place(stage.gravity),
                ] + rows,
                places,
            );
            &&& thing_at(after.scene.bodies, body).facts == (Body {
                entity: solid.facts.entity,
                transform: solid.facts.transform,
                kind: if kind == 0 {
                    BodyKind::Static
                } else if kind == 1 {
                    BodyKind::Kinematic
                } else {
                    BodyKind::Dynamic
                },
                shape: if shape == 0 {
                    ShapeKind::Box
                } else if shape == 1 {
                    ShapeKind::Sphere
                } else {
                    ShapeKind::Mesh
                },
                collider,
                sensor,
                wet,
            })
            &&& thing_at(after.scene.bodies, body).name == solid.name
            &&& after.scene.entities == world.scene.entities
            &&& thing_at(held.scene.joints, joint).facts == (Joint {
                kind: if kind == 0 {
                    JointKind::Weld
                } else if kind == 1 {
                    JointKind::Axis
                } else {
                    JointKind::Rope
                },
                first: tie.facts.first,
                second: tie.facts.second,
            })
            &&& thing_at(held.scene.joints, joint).name == tie.name
            &&& lit.scene.stage == stage
            &&& lit.scene.sky == rows
            &&& lit.scene.entities == world.scene.entities
        }),
{
    let solid = thing_at(world.scene.bodies, body);
    let tie = thing_at(world.scene.joints, joint);
    let six = seq![
        Said::Word(kind),
        Said::Word(shape),
        Said::Mesh(collider),
        Said::Bool(sensor),
        Said::Bool(wet),
        Said::Entity(solid.facts.entity),
    ] + rows;
    assert(six[0] == Said::Word(kind) && six[1] == Said::Word(shape) && six[2] == Said::Mesh(
        collider,
    ) && six[3] == Said::Bool(sensor) && six[4] == Said::Bool(wet));
    let three = seq![
        Said::Word(kind),
        Said::Body(tie.facts.first),
        Said::Body(tie.facts.second),
    ] + rows;
    assert(three[0] == Said::Word(kind));
    let four = seq![
        Said::Color(stage.clear),
        Said::Place(stage.light),
        Said::Color(stage.ambient),
        Said::Place(stage.gravity),
    ] + rows;
    assert(four[0] == Said::Color(stage.clear) && four[1] == Said::Place(stage.light) && four[2]
        == Said::Color(stage.ambient) && four[3] == Said::Place(stage.gravity));
    assert(four.skip(4) =~= rows);
}

/// What each section shows: the facts it is about, in its own order, and behind
/// them what its own record holds.
pub proof fn what_a_section_shows(world: Worldly, id: EntityId, body: BodyId, joint: JointId)
    requires
        lives(world.scene.entities, id),
        lives(world.scene.bodies, body),
        lives(world.scene.joints, joint),
    ensures
        ({
            let pick = Pick::Entity(id);
            let thing = thing_at(world.scene.entities, id);
            let facts = thing.facts;
            let solid = thing_at(world.scene.bodies, body);
            let tie = thing_at(world.scene.joints, joint);
            let look = rows_of(world, pick, Section::Look);
            let lamp = rows_of(world, pick, Section::Lamp);
            let placing = rows_of(world, pick, Section::Placing);
            let all = rows_of(world, Pick::Body(body), Section::Solid);
            let held = rows_of(world, Pick::Joint(joint), Section::Tie);
            &&& rows_of(world, pick, Section::Naming) == seq![Said::Text(thing.name)]
            &&& rows_of(world, Pick::Body(body), Section::Naming) == seq![Said::Text(solid.name)]
            &&& rows_of(world, Pick::Joint(joint), Section::Naming) == seq![Said::Text(tie.name)]
            &&& placing == seq![
                Said::Place(facts.transform.position),
                Said::Turn(facts.transform.rotation),
                Said::Place(facts.transform.scale),
            ]
            &&& look.len() >= 2 && look[0] == Said::Mesh(facts.mesh) && look[1] == Said::Material(
                facts.material,
            )
            &&& thing.sheets.len() > 0 ==> look.skip(2) == thing.sheets[0]
            &&& lamp.len() >= 3 && lamp[1] == Said::Float(facts.light.range) && lamp[2]
                == Said::Float(facts.light.outer)
            &&& facts.light.kind == LightKind::Dark ==> lamp[0] == Said::Word(0)
            &&& facts.light.kind == LightKind::Point ==> lamp[0] == Said::Word(1)
            &&& facts.light.kind == LightKind::Spot ==> lamp[0] == Said::Word(2)
            &&& thing.sheets.len() > 1 ==> lamp.skip(3) == thing.sheets[1]
            &&& rows_of(world, pick, Section::Painted) == seq![Said::Bool(facts.takes_decals)]
            &&& thing.sheets.len() > 5 ==> rows_of(world, pick, Section::Records)
                == thing.sheets[5]
            &&& all.len() >= 6 && all[2] == Said::Mesh(solid.facts.collider) && all[3]
                == Said::Bool(solid.facts.sensor) && all[4] == Said::Bool(solid.facts.wet) && all[5]
                == Said::Entity(solid.facts.entity)
            &&& solid.facts.kind == BodyKind::Static ==> all[0] == Said::Word(0)
            &&& solid.facts.kind == BodyKind::Kinematic ==> all[0] == Said::Word(1)
            &&& solid.facts.kind == BodyKind::Dynamic ==> all[0] == Said::Word(2)
            &&& solid.facts.shape == ShapeKind::Box ==> all[1] == Said::Word(0)
            &&& solid.facts.shape == ShapeKind::Sphere ==> all[1] == Said::Word(1)
            &&& solid.facts.shape == ShapeKind::Mesh ==> all[1] == Said::Word(2)
            &&& held.len() >= 3 && held[1] == Said::Body(tie.facts.first) && held[2] == Said::Body(
                tie.facts.second,
            )
            &&& tie.facts.kind == JointKind::Weld ==> held[0] == Said::Word(0)
            &&& tie.facts.kind == JointKind::Axis ==> held[0] == Said::Word(1)
            &&& tie.facts.kind == JointKind::Rope ==> held[0] == Said::Word(2)
        }),
{
    let pick = Pick::Entity(id);
    let thing = thing_at(world.scene.entities, id);
    assert(rows_of(world, pick, Section::Placing) =~= stand_said(thing.facts.transform));
    if thing.sheets.len() > 0 {
        assert(rows_of(world, pick, Section::Look).skip(2) =~= thing.sheets[0]);
    }
    if thing.sheets.len() > 1 {
        assert(rows_of(world, pick, Section::Lamp).skip(3) =~= thing.sheets[1]);
    }
    if thing.sheets.len() > 5 {
        assert(rows_of(world, pick, Section::Records) =~= thing.sheets[5]);
    }
    assert(rows_of(world, pick, Section::Painted) =~= seq![Said::Bool(thing.facts.takes_decals)]);
}

/// What else a section shows of an entity: what kind of particles it throws, what
/// kind of ground it is and how it paints, each with the rest of its own record
/// behind it; and what stands under the world's own section.
pub proof fn what_else_a_section_shows(world: Worldly, id: EntityId)
    requires
        lives(world.scene.entities, id),
    ensures
        ({
            let pick = Pick::Entity(id);
            let thing = thing_at(world.scene.entities, id);
            let thrower = rows_of(world, pick, Section::Thrower);
            let land = rows_of(world, pick, Section::Land);
            let paint = rows_of(world, pick, Section::Paint);
            let stage = rows_of(world, Pick::Nothing, Section::World);
            &&& thrower.len() > 0 && thrower[0] == Said::Word(thing.facts.emitter)
            &&& land.len() > 0 && land[0] == Said::Word(thing.facts.terrain)
            &&& paint.len() > 0 && paint[0] == Said::Word(thing.facts.decal)
            &&& thing.sheets.len() > 2 ==> thrower.skip(1) == thing.sheets[2]
            &&& thing.sheets.len() > 3 ==> land.skip(1) == thing.sheets[3]
            &&& thing.sheets.len() > 4 ==> paint.skip(1) == thing.sheets[4]
            &&& stage.take(4) == seq![
                Said::Color(world.scene.stage.clear),
                Said::Place(world.scene.stage.light),
                Said::Color(world.scene.stage.ambient),
                Said::Place(world.scene.stage.gravity),
            ]
            &&& stage.skip(4) == world.scene.sky
        }),
{
    let pick = Pick::Entity(id);
    let thing = thing_at(world.scene.entities, id);
    if thing.sheets.len() > 2 {
        assert(rows_of(world, pick, Section::Thrower).skip(1) =~= thing.sheets[2]);
    }
    if thing.sheets.len() > 3 {
        assert(rows_of(world, pick, Section::Land).skip(1) =~= thing.sheets[3]);
    }
    if thing.sheets.len() > 4 {
        assert(rows_of(world, pick, Section::Paint).skip(1) =~= thing.sheets[4]);
    }
    let stage = rows_of(world, Pick::Nothing, Section::World);
    assert(stage.take(4) =~= stage_said(world.scene.stage));
    assert(stage.skip(4) =~= world.scene.sky);
}

/// Placing an entity that hangs off nothing and that no body drives puts it where
/// its rows say and changes nothing else of it; placing a body that drives nothing
/// living puts the body there and changes nothing else of it.
pub proof fn placing_puts_it_where_the_rows_say(
    world: Worldly,
    id: EntityId,
    body: BodyId,
    put: Transform,
    places: Seq<(Pick, Transform)>,
)
    requires
        in_order(world),
        lives(world.scene.entities, id),
        lives(world.scene.bodies, body),
        !parent_of(world.scene.entities, id).some(),
        forall|other: BodyId| #[trigger]
            lives(world.scene.bodies, other) ==> thing_at(world.scene.bodies, other).facts.entity
                != id,
        !lives(world.scene.entities, thing_at(world.scene.bodies, body).facts.entity),
    ensures
        ({
            let rows = seq![
                Said::Place(put.position),
                Said::Turn(put.rotation),
                Said::Place(put.scale),
            ];
            let was = thing_at(world.scene.entities, id);
            let solid = thing_at(world.scene.bodies, body);
            let one = rows_put(world, Pick::Entity(id), Section::Placing, rows, places).scene;
            let other = rows_put(world, Pick::Body(body), Section::Placing, rows, places).scene;
            &&& thing_at(one.entities, id) == (Thing {
                facts: Entity { transform: put, ..was.facts },
                ..was
            })
            &&& one.bodies == world.scene.bodies
            &&& thing_at(other.bodies, body) == (Thing {
                facts: Body { transform: put, ..solid.facts },
                ..solid
            })
        }),
{
    let rows = seq![Said::Place(put.position), Said::Turn(put.rotation), Said::Place(put.scale)];
    let was = thing_at(world.scene.entities, id);
    assert(stand_told(was.facts.transform, rows) == put);
    assert(stand_told(thing_at(world.scene.bodies, body).facts.transform, rows) == put);
    crate::pressing::moving_moves_nothing_else(world.scene, Pick::Entity(id), put, put);
    crate::pressing::moving_moves_nothing_else(world.scene, Pick::Body(body), put, put);
}

/// Writing a section of one thing leaves every other thing as it was, and what
/// is behind the facts goes to the section's own record and no other.
pub proof fn a_section_writes_one_thing(
    world: Worldly,
    id: EntityId,
    section: Section,
    rows: Seq<Said>,
    places: Seq<(Pick, Transform)>,
    other: EntityId,
    record: int,
)
    requires
        in_order(world),
        lives(world.scene.entities, id),
        section != Section::Placing,
        0 <= record < thing_at(world.scene.entities, id).sheets.len(),
    ensures
        ({
            let after = rows_put(world, Pick::Entity(id), section, rows, places);
            let was = thing_at(world.scene.entities, id);
            let now = thing_at(after.scene.entities, id);
            let own: int = if section == Section::Look {
                0
            } else if section == Section::Lamp {
                1
            } else if section == Section::Thrower {
                2
            } else if section == Section::Land {
                3
            } else if section == Section::Paint {
                4
            } else if section == Section::Records {
                5
            } else {
                -1
            };
            &&& lives(after.scene.entities, other) == lives(world.scene.entities, other)
            &&& lives(world.scene.entities, other) && other != id ==> thing_at(
                after.scene.entities,
                other,
            ) == thing_at(world.scene.entities, other)
            &&& after.scene.bodies == world.scene.bodies
            &&& after.scene.joints == world.scene.joints
            &&& after.materials == world.materials
            &&& now.sheets.len() == was.sheets.len()
            &&& record != own ==> now.sheets[record] == was.sheets[record]
            &&& section == Section::Records && record == 5 ==> now.sheets[record] == rows
            &&& section == Section::Look && record == 0 ==> now.sheets[record] == rows.skip(2)
            &&& section == Section::Lamp && record == 1 ==> now.sheets[record] == rows.skip(3)
            &&& section == Section::Thrower && record == 2 ==> now.sheets[record] == rows.skip(1)
            &&& section == Section::Land && record == 3 ==> now.sheets[record] == rows.skip(1)
            &&& section == Section::Paint && record == 4 ==> now.sheets[record] == rows.skip(1)
        }),
{
    assert(rows.skip(0) =~= rows);
}

/// A name, the world's settings and a material are one thing's own: writing one
/// leaves everything else that is picked alone. Every other section is written to
/// everything picked of its kind.
pub proof fn what_is_one_things_own(section: Section)
    ensures
        !shared(Section::Naming),
        !shared(Section::World),
        !shared(Section::Coat),
        section != Section::Naming && section != Section::World && section != Section::Coat
            ==> shared(section),
{
}

/// Writing a material writes its own fields and leaves its name, every other
/// material and the world alone; the one that stands for nothing is never
/// written.
pub proof fn a_material_writes_its_own_fields(
    world: Worldly,
    id: u32,
    rows: Seq<Said>,
    places: Seq<(Pick, Transform)>,
    other: int,
)
    requires
        0 <= other < world.materials.len(),
    ensures
        ({
            let after = rows_put(world, Pick::Material(id), Section::Coat, rows, places);
            &&& after == (Worldly { materials: after.materials, ..world })
            &&& after.materials.len() == world.materials.len()
            &&& other != id ==> after.materials[other] == world.materials[other]
            &&& 0 < id < world.materials.len() ==> after.materials[id as int].sheet == rows
                && after.materials[id as int].name == world.materials[id as int].name
                && after.materials[id as int].drawn == world.materials[id as int].drawn
            &&& id == 0 ==> after.materials == world.materials
            &&& id < world.materials.len() ==> rows_of(world, Pick::Material(id), Section::Coat)
                == world.materials[id as int].sheet
        }),
{
}

/// The place reckoned for a thing is the first that names it, and there is none
/// where none does; a thing that hangs off nothing needs none.
pub proof fn the_place_reckoned_is_its_own(
    scene: Described,
    places: Seq<(Pick, Transform)>,
    pick: Pick,
    own: Transform,
)
    ensures
        match place_among(places, pick) {
            None => forall|i: int| 0 <= i < places.len() ==> (#[trigger] places[i]).0 != pick,
            Some(place) => exists|i: int|
                0 <= i < places.len() && #[trigger] places[i] == (pick, place) && forall|j: int|
                    0 <= j < i ==> (#[trigger] places[j]).0 != pick,
        },
        ({
            let id = pick->Entity_0;
            pick is Entity && !parent_of(scene.entities, id).some() ==> other_place(
                scene,
                pick,
                own,
                places,
            ) == Some(own)
        }),
        ({
            let id = pick->Entity_0;
            pick is Entity && parent_of(scene.entities, id).some() ==> other_place(
                scene,
                pick,
                own,
                places,
            ) == place_among(places, pick)
        }),
        ({
            let id = pick->Body_0;
            let driven = thing_at(scene.bodies, id).facts.entity;
            pick is Body && lives(scene.bodies, id) && parent_of(scene.entities, driven).some()
                ==> other_place(scene, pick, own, places) == place_among(places, pick)
        }),
    decreases places.len(),
{
    if places.len() > 0 && places[0].0 != pick {
        let rest = places.drop_first();
        the_place_reckoned_is_its_own(scene, rest, pick, own);
        match place_among(rest, pick) {
            None => {
                assert forall|i: int| 0 <= i < places.len() implies (#[trigger] places[i]).0
                    != pick by {
                    if i > 0 {
                        assert(places[i] == rest[i - 1]);
                    }
                }
            },
            Some(place) => {
                let i = choose|i: int|
                    0 <= i < rest.len() && #[trigger] rest[i] == (pick, place) && forall|j: int|
                        0 <= j < i ==> (#[trigger] rest[j]).0 != pick;
                assert(places[i + 1] == rest[i]);
                assert forall|j: int| 0 <= j < i + 1 implies (#[trigger] places[j]).0 != pick by {
                    if j > 0 {
                        assert(places[j] == rest[j - 1]);
                    }
                }
            },
        }
    } else if places.len() > 0 {
        assert(places[0] == (pick, place_among(places, pick)->0));
    }
}

} // verus!
