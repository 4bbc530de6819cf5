//! What the editor draws for a thing that has nothing to look at: which
//! things are marked, which are outlined, and which handles they offer.
//!
//! Where a mark or a line lands on the screen is reckoned outside.

use vstd::prelude::*;
use crate::fraction::{less, less_fraction};
use crate::inspector::Section;
use crate::section::{
    a_field_is_written_once, field_moves, field_written, in_order, rows, rows_of, write_field,
    RECORDS,
};
use crate::select::Pick;
use crate::table::{lives, living, thing_at};
use crate::tree::{shown, visible};
use crate::value::{said_all, Said, Value};
use crate::world::{
    BodyId, Entity, EntityId, JointId, LightKind, ShapeKind, Triple, World, Worldly, MAX_ENTITIES,
};

verus! {

/// What a mark stands for.
#[derive(Clone, Copy, Debug, PartialEq, Eq, Structural)]
pub enum Kind {
    /// A lamp throwing light every way.
    Lamp,
    /// A lamp throwing a cone.
    Spot,
    /// A thing throwing particles.
    Thrower,
    /// A thing painting a picture onto what is around it.
    Painter,
}

/// What an entity with no mesh is, if it is anything: a light before
/// anything else it may be, then a thrower, then a painter.
pub open spec fn kind_said(entity: Entity) -> Option<Kind> {
    if entity.light.lit() {
        if entity.light.kind == LightKind::Spot {
            Some(Kind::Spot)
        } else {
            Some(Kind::Lamp)
        }
    } else if entity.emitter != 0 {
        Some(Kind::Thrower)
    } else if entity.decal != 0 {
        Some(Kind::Painter)
    } else {
        None
    }
}

/// What an entity with no mesh is, if it is anything.
pub fn kind_of(entity: Entity) -> (result: Option<Kind>)
    ensures
        result == kind_said(entity),
{
    if entity.light.is_lit() {
        if entity.light.kind == LightKind::Spot {
            Some(Kind::Spot)
        } else {
            Some(Kind::Lamp)
        }
    } else if entity.emitter != 0 {
        Some(Kind::Thrower)
    } else if entity.decal != 0 {
        Some(Kind::Painter)
    } else {
        None
    }
}

/// Whether an entity draws anything at all.
pub open spec fn drawn(world: Worldly, id: EntityId) -> bool {
    &&& lives(world.scene.entities, id)
    &&& thing_at(world.scene.entities, id).facts.mesh < world.meshes.len()
    &&& world.meshes[thing_at(world.scene.entities, id).facts.mesh as int].drawn
}

/// Whether an entity draws anything at all.
pub fn draws(world: &World, id: EntityId) -> (result: bool)
    ensures
        result == drawn(world.view(), id),
{
    match world.scene.entities.get(id) {
        None => false,
        Some(facts) => world.meshes.drawn(facts.mesh),
    }
}

/// What an entity is marked as, if it is marked: it is shown, draws nothing,
/// and is something.
pub open spec fn mark_of(world: Worldly, id: EntityId) -> Option<Kind> {
    if lives(world.scene.entities, id) && visible(
        world.scene.entities,
        id,
        MAX_ENTITIES as nat,
    ) && !drawn(world, id) {
        kind_said(thing_at(world.scene.entities, id).facts)
    } else {
        None
    }
}

/// One thing with nothing to look at.
#[derive(Clone, Copy, Debug, PartialEq, Eq, Structural)]
pub struct Mark {
    /// What a click on it selects.
    pub pick: Pick,
    /// Which glyph.
    pub kind: Kind,
}

/// The marks of several entities, in their order.
pub open spec fn marks_among(world: Worldly, ids: Seq<EntityId>) -> Seq<Mark>
    decreases ids.len(),
{
    if ids.len() == 0 {
        Seq::empty()
    } else {
        let so_far = marks_among(world, ids.drop_last());
        match mark_of(world, ids.last()) {
            None => so_far,
            Some(kind) => so_far.push(Mark { pick: Pick::Entity(ids.last()), kind }),
        }
    }
}

/// Every thing with nothing to look at, marked.
pub fn marks(world: &World) -> (result: Vec<Mark>)
    requires
        world.wf(),
    ensures
        result@ == marks_among(world.view(), living(world.view().scene.entities)),
{
    let ids: Vec<EntityId> = world.scene.entities.ids();
    let ghost all = ids@;
    let mut found: Vec<Mark> = Vec::new();
    let mut i: usize = 0;
    assert(all.take(0) =~= Seq::empty());
    while i < ids.len()
        invariant
            i <= ids@.len(),
            all == ids@,
            found@ == marks_among(world.view(), all.take(i as int)),
        decreases ids@.len() - i,
    {
        proof {
            assert(all.take(i as int + 1).drop_last() =~= all.take(i as int));
            assert(all.take(i as int + 1).last() == all[i as int]);
        }
        let id: EntityId = ids[i];
        match world.scene.entities.get(id) {
            None => {},
            Some(facts) => {
                if shown(&world.scene.entities, id) && !draws(world, id) {
                    match kind_of(facts) {
                        None => {},
                        Some(kind) => {
                            found.push(Mark { pick: Pick::Entity(id), kind });
                        },
                    }
                }
            },
        }
        i = i + 1;
    }
    assert(all.take(i as int) =~= all);
    found
}

/// What an outline is drawn for.
#[derive(Clone, Copy, Debug, PartialEq, Eq, Structural)]
pub enum Drawn {
    /// A joint, between the two places it holds.
    Tie,
    /// A body nobody draws.
    Solid,
    /// A body nobody draws that is full of fluid.
    Fluid,
}

/// One thing with nothing to look at whose shape is the picture.
#[derive(Clone, Copy, Debug, PartialEq, Eq, Structural)]
pub struct Outline {
    /// What a click on it selects.
    pub pick: Pick,
    /// What it is.
    pub drawn: Drawn,
    /// The body the lines are those of, or nothing for a joint.
    pub body: Option<BodyId>,
}

/// The outline of a body, if it has one: nothing draws where it stands, what
/// it drives is not hidden, and its shape is one with an outline. A click on
/// it selects what it drives, where that is alive.
pub open spec fn outline_of(world: Worldly, id: BodyId) -> Option<Outline> {
    let body = thing_at(world.scene.bodies, id).facts;
    let driven = lives(world.scene.entities, body.entity);
    if !lives(world.scene.bodies, id) || body.shape == ShapeKind::Mesh || (driven && (!visible(
        world.scene.entities,
        body.entity,
        MAX_ENTITIES as nat,
    ) || drawn(world, body.entity))) {
        None
    } else {
        Some(
            Outline {
                pick: if driven {
                    Pick::Entity(body.entity)
                } else {
                    Pick::Body(id)
                },
                drawn: if body.wet {
                    Drawn::Fluid
                } else {
                    Drawn::Solid
                },
                body: Some(id),
            },
        )
    }
}

/// The outlines of several joints: every one.
pub open spec fn ties_among(ids: Seq<JointId>) -> Seq<Outline> {
    Seq::new(
        ids.len(),
        |i: int| Outline { pick: Pick::Joint(ids[i]), drawn: Drawn::Tie, body: None },
    )
}

/// The outlines of several bodies, in their order.
pub open spec fn solids_among(world: Worldly, ids: Seq<BodyId>) -> Seq<Outline>
    decreases ids.len(),
{
    if ids.len() == 0 {
        Seq::empty()
    } else {
        let so_far = solids_among(world, ids.drop_last());
        match outline_of(world, ids.last()) {
            None => so_far,
            Some(outline) => so_far.push(outline),
        }
    }
}

/// The outline of a body, if it has one.
fn outlined(world: &World, id: BodyId) -> (result: Option<Outline>)
    ensures
        result == outline_of(world.view(), id),
{
    match world.scene.bodies.get(id) {
        None => None,
        Some(body) => {
            let driven: bool = world.scene.entities.alive(body.entity);
            if driven && (!shown(&world.scene.entities, body.entity) || draws(world, body.entity)) {
                return None;
            }
            if body.shape == ShapeKind::Mesh {
                return None;
            }
            Some(
                Outline {
                    pick: if driven {
                        Pick::Entity(body.entity)
                    } else {
                        Pick::Body(id)
                    },
                    drawn: if body.wet {
                        Drawn::Fluid
                    } else {
                        Drawn::Solid
                    },
                    body: Some(id),
                },
            )
        },
    }
}

/// Every joint, and every body nobody draws.
pub fn outlines(world: &World) -> (result: Vec<Outline>)
    requires
        world.wf(),
    ensures
        result@ == ties_among(living(world.view().scene.joints)) + solids_among(
            world.view(),
            living(world.view().scene.bodies),
        ),
{
    let joints: Vec<JointId> = world.scene.joints.ids();
    let bodies: Vec<BodyId> = world.scene.bodies.ids();
    let mut found: Vec<Outline> = Vec::new();
    let mut i: usize = 0;
    while i < joints.len()
        invariant
            i <= joints@.len(),
            found@ == ties_among(joints@).take(i as int),
        decreases joints@.len() - i,
    {
        found.push(Outline { pick: Pick::Joint(joints[i]), drawn: Drawn::Tie, body: None });
        assert(ties_among(joints@).take(i as int + 1) =~= ties_among(joints@).take(i as int).push(
            ties_among(joints@)[i as int],
        ));
        i = i + 1;
    }
    assert(found@ =~= ties_among(joints@));
    let ghost all = bodies@;
    let mut k: usize = 0;
    assert(all.take(0) =~= Seq::empty());
    assert(found@ =~= ties_among(joints@) + solids_among(world.view(), all.take(0)));
    while k < bodies.len()
        invariant
            k <= bodies@.len(),
            all == bodies@,
            found@ == ties_among(joints@) + solids_among(world.view(), all.take(k as int)),
        decreases bodies@.len() - k,
    {
        let ghost was = found@;
        proof {
            assert(all.take(k as int + 1).drop_last() =~= all.take(k as int));
            assert(all.take(k as int + 1).last() == all[k as int]);
        }
        match outlined(world, bodies[k]) {
            None => {},
            Some(outline) => {
                found.push(outline);
                assert(found@ =~= ties_among(joints@) + solids_among(
                    world.view(),
                    all.take(k as int + 1),
                ));
            },
        }
        k = k + 1;
    }
    assert(all.take(k as int) =~= all);
    found
}

/// What is hidden is neither marked nor outlined, and what is drawn is not
/// marked: it can be clicked where it is drawn.
pub proof fn nothing_hidden_is_drawn(world: Worldly, id: EntityId, body: BodyId)
    requires
        !visible(world.scene.entities, id, MAX_ENTITIES as nat) || drawn(world, id),
    ensures
        mark_of(world, id) is None,
        lives(world.scene.entities, id) && thing_at(world.scene.bodies, body).facts.entity == id
            ==> outline_of(world, body) is None,
{
}

/// What is under the pointer: a mark before a line, because a mark is a
/// thing's whole picture and a line the edge of one.
pub fn under(mark: Option<Pick>, line: Option<Pick>) -> (result: Option<Pick>)
    ensures
        result == if mark is Some {
            mark
        } else {
            line
        },
{
    match mark {
        Some(pick) => Some(pick),
        None => line,
    }
}

/// Which field a handle writes.
#[derive(Clone, Copy, Debug, PartialEq, Eq, Structural)]
pub enum Knob {
    /// How far a lamp reaches.
    Range,
    /// The half-angle of a cone's edge.
    Outer,
    /// A field of a game's record that says it is drawn as a distance.
    Radius { table: usize, column: usize },
    /// A field of a game's record that says it is a place in the thing.
    Point { table: usize, column: usize },
}

impl Knob {
    /// What the step back it opens is called.
    pub open spec fn said(self) -> Seq<char> {
        match self {
            Knob::Range => "reach"@,
            Knob::Outer => "cone"@,
            _ => "record"@,
        }
    }

    /// What to call the step back it opens.
    pub fn word(self) -> (result: &'static str)
        ensures
            result@ == self.said(),
    {
        match self {
            Knob::Range => "reach",
            Knob::Outer => "cone",
            _ => "record",
        }
    }
}

/// Where the field a knob writes stands among the rows of a lamp; none for a
/// record's, which is reached by where it sits.
pub fn column(knob: Knob) -> (result: Option<usize>)
    ensures
        result == match knob {
            Knob::Range => Some(1usize),
            Knob::Outer => Some(2usize),
            _ => None,
        },
{
    match knob {
        Knob::Range => Some(1),
        Knob::Outer => Some(2),
        _ => None,
    }
}

/// The handles a selected thing offers: a lamp its reach, a cone its edge as
/// well, and nothing else any.
pub open spec fn handles_of(world: Worldly, pick: Pick) -> Seq<Knob> {
    match pick {
        Pick::Entity(id) => if !lives(world.scene.entities, id) || !thing_at(
            world.scene.entities,
            id,
        ).facts.light.lit() {
            Seq::empty()
        } else if thing_at(world.scene.entities, id).facts.light.kind == LightKind::Spot {
            seq![Knob::Range, Knob::Outer]
        } else {
            seq![Knob::Range]
        },
        _ => Seq::empty(),
    }
}

/// The handles a selected thing offers.
pub fn handles(world: &World, pick: Pick) -> (result: Vec<Knob>)
    ensures
        result@ == handles_of(world.view(), pick),
{
    let mut found: Vec<Knob> = Vec::new();
    match pick {
        Pick::Entity(id) => {
            match world.scene.entities.get(id) {
                None => {},
                Some(facts) => {
                    if facts.light.is_lit() {
                        found.push(Knob::Range);
                        if facts.light.kind == LightKind::Spot {
                            found.push(Knob::Outer);
                        }
                    }
                },
            }
        },
        _ => {},
    }
    assert(found@ =~= handles_of(world.view(), pick));
    found
}

/// How a field of a record says it is drawn.
#[derive(Clone, Copy, Debug, PartialEq, Eq, Structural)]
pub enum Draw {
    /// Not at all.
    Nothing,
    /// As a distance around the thing.
    Radius,
    /// As a place in the thing.
    Point,
}

/// What a field of a record holds.
#[derive(Clone, Copy, Debug, PartialEq, Eq, Structural)]
pub enum Shape {
    /// One fraction.
    Number,
    /// Three.
    Place,
    /// Anything else.
    Other,
}

/// The handle a field offers: a distance that holds a number, or a place that
/// holds three.
pub open spec fn knob_of(row: (Draw, Shape), table: usize, column: usize) -> Option<Knob> {
    match row {
        (Draw::Radius, Shape::Number) => Some(Knob::Radius { table, column }),
        (Draw::Point, Shape::Place) => Some(Knob::Point { table, column }),
        _ => None,
    }
}

/// The handles the first so many fields of a record offer, behind others.
pub open spec fn knobs_in(rows: Seq<(Draw, Shape)>, table: usize, count: nat, so_far: Seq<Knob>) -> Seq<
    Knob,
>
    decreases count,
{
    if count == 0 {
        so_far
    } else {
        let before = knobs_in(rows, table, (count - 1) as nat, so_far);
        match knob_of(rows[count - 1], table, (count - 1) as usize) {
            None => before,
            Some(knob) => before.push(knob),
        }
    }
}

/// The handles the first so many records offer.
pub open spec fn knobs_of(tables: Seq<Vec<(Draw, Shape)>>, count: nat) -> Seq<Knob>
    decreases count,
{
    if count == 0 {
        Seq::empty()
    } else {
        knobs_in(
            tables[count - 1]@,
            (count - 1) as usize,
            tables[count - 1]@.len(),
            knobs_of(tables, (count - 1) as nat),
        )
    }
}

/// The handles a selected thing's own records offer: every record walked
/// alike, whoever declared it. Only an entity that is alive has any.
pub fn noted(world: &World, pick: Pick, tables: &Vec<Vec<(Draw, Shape)>>) -> (result: Vec<Knob>)
    ensures
        result@ == match pick {
            Pick::Entity(id) => if lives(world.view().scene.entities, id) {
                knobs_of(tables@, tables@.len())
            } else {
                Seq::empty()
            },
            _ => Seq::empty(),
        },
{
    match pick {
        Pick::Entity(id) => {
            if !world.scene.entities.alive(id) {
                return Vec::new();
            }
        },
        _ => return Vec::new(),
    }
    let mut found: Vec<Knob> = Vec::new();
    let mut table: usize = 0;
    while table < tables.len()
        invariant
            table <= tables@.len(),
            found@ == knobs_of(tables@, table as nat),
        decreases tables@.len() - table,
    {
        let ghost so_far = found@;
        let mut column: usize = 0;
        while column < tables[table].len()
            invariant
                table < tables@.len(),
                column <= tables@[table as int]@.len(),
                found@ == knobs_in(tables@[table as int]@, table, column as nat, so_far),
            decreases tables@[table as int]@.len() - column,
        {
            match tables[table][column] {
                (Draw::Radius, Shape::Number) => {
                    found.push(Knob::Radius { table, column });
                },
                (Draw::Point, Shape::Place) => {
                    found.push(Knob::Point { table, column });
                },
                _ => {},
            }
            column = column + 1;
        }
        table = table + 1;
    }
    found
}

/// What a field of a record adds to the picture.
#[derive(Clone, Copy, Debug, PartialEq, Eq, Structural)]
pub enum Sketch {
    /// Circles around the thing, this wide, by its bits.
    Circles(u32),
    /// A line out to a place in the thing, by its bits.
    Line(Triple),
}

/// What a field of a record adds to the picture, if anything: a distance its
/// circles where there is any, and a place a line out to it.
pub open spec fn sketch_of(draw: Draw, held: Said) -> Option<Sketch> {
    match (draw, held) {
        (Draw::Radius, Said::Float(wide)) => if less(0, wide) {
            Some(Sketch::Circles(wide))
        } else {
            None
        },
        (Draw::Point, Said::Place(at)) => Some(Sketch::Line(at)),
        _ => None,
    }
}

/// What the first so many fields add to the picture.
pub open spec fn sketches_among(draws: Seq<Draw>, held: Seq<Said>, count: nat) -> Seq<Sketch>
    decreases count,
{
    if count == 0 {
        Seq::empty()
    } else {
        let so_far = sketches_among(draws, held, (count - 1) as nat);
        match sketch_of(draws[count - 1], held[count - 1]) {
            Some(sketch) => so_far.push(sketch),
            None => so_far,
        }
    }
}

/// What a selected thing's records add to the picture, field by field. `draws`
/// says of every declared field how it is drawn.
pub fn sketch(world: &World, pick: Pick, draws: &Vec<Draw>) -> (result: Vec<Sketch>)
    ensures
        ({
            let held = rows_of(world.view(), pick, Section::Records);
            result@ == sketches_among(
                draws@,
                held,
                if draws@.len() < held.len() {
                    draws@.len()
                } else {
                    held.len()
                },
            )
        }),
{
    let held: Vec<Value> = rows(world, pick, Section::Records);
    let ghost said = rows_of(world.view(), pick, Section::Records);
    let mut found: Vec<Sketch> = Vec::new();
    let mut i: usize = 0;
    while i < draws.len() && i < held.len()
        invariant
            i <= draws@.len(),
            i <= held@.len(),
            said == said_all(held@),
            found@ == sketches_among(draws@, said, i as nat),
        decreases draws@.len() - i,
    {
        assert(said[i as int] == held@[i as int].view());
        match (draws[i], &held[i]) {
            (Draw::Radius, Value::Float(wide)) => {
                if less_fraction(0, *wide) {
                    found.push(Sketch::Circles(*wide));
                }
            },
            (Draw::Point, Value::Place(at)) => {
                found.push(Sketch::Line(*at));
            },
            _ => {},
        }
        i = i + 1;
    }
    found
}

/// What a handle was dragged to.
#[derive(Clone, Copy, Debug, PartialEq, Eq, Structural)]
pub enum Held {
    /// A number, by its bits.
    Number(u32),
    /// A place in the world, by its bits.
    Place(Triple),
}

/// How many fields the first so many records have.
pub open spec fn fields_before(tables: Seq<Vec<(Draw, Shape)>>, count: nat) -> nat
    decreases count,
{
    if count == 0 {
        0
    } else {
        fields_before(tables, (count - 1) as nat) + tables[count - 1]@.len()
    }
}

/// Where a field of a record stands among all of them, if there is such a
/// field.
pub open spec fn field_place(tables: Seq<Vec<(Draw, Shape)>>, table: usize, column: usize) -> Option<
    nat,
> {
    if table < tables.len() && column < tables[table as int]@.len() {
        Some(fields_before(tables, table as nat) + column as nat)
    } else {
        None
    }
}

/// Where a field of a record stands among all of them; none where there is no
/// such field, and none past what can be counted.
fn find_field(tables: &Vec<Vec<(Draw, Shape)>>, table: usize, column: usize) -> (result: Option<
    usize,
>)
    ensures
        result is Some ==> field_place(tables@, table, column) == Some(result->0 as nat),
        result is None ==> match field_place(tables@, table, column) {
            Some(place) => place > usize::MAX,
            None => true,
        },
{
    if table >= tables.len() || column >= tables[table].len() {
        return None;
    }
    let mut so_far: usize = 0;
    let mut i: usize = 0;
    while i < table
        invariant
            i <= table < tables@.len(),
            so_far == fields_before(tables@, i as nat),
        decreases table - i,
    {
        proof {
            more_fields(tables@, i as nat + 1, table as nat);
        }
        if usize::MAX - so_far < tables[i].len() {
            return None;
        }
        so_far = so_far + tables[i].len();
        i = i + 1;
    }
    if usize::MAX - so_far < column {
        return None;
    }
    Some(so_far + column)
}

/// More records have no fewer fields.
proof fn more_fields(tables: Seq<Vec<(Draw, Shape)>>, few: nat, many: nat)
    requires
        few <= many,
    ensures
        fields_before(tables, few) <= fields_before(tables, many),
    decreases many,
{
    if few < many {
        more_fields(tables, few, (many - 1) as nat);
    }
}

/// The field a drag of a knob writes, and what: a lamp's own where the knob is
/// a lamp's, a record's where it is a record's, and none where what was dragged
/// is not what the field holds. `inside` is the place in the thing's own terms,
/// where it stands anywhere.
pub open spec fn drag_of(
    tables: Seq<Vec<(Draw, Shape)>>,
    knob: Knob,
    value: Held,
    inside: Option<Triple>,
) -> Option<(Section, nat, Said)> {
    match (knob, value) {
        (Knob::Range, Held::Number(bits)) => Some((Section::Lamp, 1, Said::Float(bits))),
        (Knob::Outer, Held::Number(bits)) => Some((Section::Lamp, 2, Said::Float(bits))),
        (Knob::Radius { table, column }, Held::Number(bits)) => match field_place(
            tables,
            table,
            column,
        ) {
            Some(place) => Some((Section::Records, place, Said::Float(bits))),
            None => None,
        },
        (Knob::Point { table, column }, Held::Place(_)) => match (
            field_place(tables, table, column),
            inside,
        ) {
            (Some(place), Some(local)) => Some((Section::Records, place, Said::Place(local))),
            _ => None,
        },
        _ => None,
    }
}

/// Entities as picks.
pub open spec fn entity_picks(ids: Seq<EntityId>) -> Seq<Pick> {
    Seq::new(ids.len(), |i: int| Pick::Entity(ids[i]))
}

/// Entities as picks.
fn picks_for(ids: &Vec<EntityId>) -> (result: Vec<Pick>)
    ensures
        result@ == entity_picks(ids@),
{
    let mut picks: Vec<Pick> = Vec::new();
    let mut i: usize = 0;
    while i < ids.len()
        invariant
            i <= ids@.len(),
            picks@.len() == i,
            forall|k: int| 0 <= k < i ==> #[trigger] picks@[k] == Pick::Entity(ids@[k]),
        decreases ids@.len() - i,
    {
        picks.push(Pick::Entity(ids[i]));
        i = i + 1;
    }
    assert(picks@ =~= entity_picks(ids@));
    picks
}

/// Whether a drag of a handle writes anything.
pub open spec fn drag_moves(
    world: Worldly,
    pick: Pick,
    tables: Seq<Vec<(Draw, Shape)>>,
    knob: Knob,
    value: Held,
    inside: Option<Triple>,
) -> bool {
    match (pick, drag_of(tables, knob, value, inside)) {
        (Pick::Entity(_), Some((section, place, said))) => field_moves(
            world,
            pick,
            section,
            place as int,
            said,
        ),
        _ => false,
    }
}

/// Writes what a handle was dragged to: the field of the lamp or of the record
/// it hangs off, and the same field of every other entity picked. Whether
/// anything was written.
pub fn write(
    world: &mut World,
    pick: Pick,
    others: &Vec<EntityId>,
    tables: &Vec<Vec<(Draw, Shape)>>,
    knob: Knob,
    value: Held,
    inside: Option<Triple>,
) -> (result: bool)
    requires
        old(world).wf(),
    ensures
        final(world).wf(),
        result == drag_moves(old(world).view(), pick, tables@, knob, value, inside),
        final(world).view() == match drag_of(tables@, knob, value, inside) {
            Some((section, place, said)) if pick is Entity => field_written(
                old(world).view(),
                pick,
                entity_picks(others@),
                section,
                place as int,
                said,
            ),
            _ => old(world).view(),
        },
{
    match pick {
        Pick::Entity(_) => {},
        _ => {
            return false;
        },
    }
    let picks: Vec<Pick> = picks_for(others);
    let ghost was = world.view();
    match (knob, value) {
        (Knob::Range, Held::Number(bits)) => write_field(
            world,
            pick,
            &picks,
            Section::Lamp,
            1,
            &Value::Float(bits),
        ),
        (Knob::Outer, Held::Number(bits)) => write_field(
            world,
            pick,
            &picks,
            Section::Lamp,
            2,
            &Value::Float(bits),
        ),
        (Knob::Radius { table, column }, Held::Number(bits)) => match find_field(
            tables,
            table,
            column,
        ) {
            Some(place) => write_field(
                world,
                pick,
                &picks,
                Section::Records,
                place,
                &Value::Float(bits),
            ),
            None => {
                proof {
                    rows_can_be_counted(world, pick);
                }
                false
            },
        },
        (Knob::Point { table, column }, Held::Place(_)) => match (
            find_field(tables, table, column),
            inside,
        ) {
            (Some(place), Some(local)) => write_field(
                world,
                pick,
                &picks,
                Section::Records,
                place,
                &Value::Place(local),
            ),
            _ => {
                proof {
                    rows_can_be_counted(world, pick);
                }
                false
            },
        },
        _ => false,
    }
}

/// The rows of a thing's records can be counted.
proof fn rows_can_be_counted(world: &World, pick: Pick)
    requires
        pick is Entity,
    ensures
        rows_of(world.view(), pick, Section::Records).len() <= usize::MAX,
{
    match pick {
        Pick::Entity(id) => {
            world.scene.entities.sheet_can_be_counted(id, RECORDS as nat);
        },
        _ => {},
    }
}

/// A lamp dragged to some reach is lit, whatever its reach was: a lamp is lit by
/// its kind and its reach, whoever wrote them.
pub proof fn a_reach_lights_a_lamp(
    world: Worldly,
    id: EntityId,
    others: Seq<EntityId>,
    reach: u32,
)
    requires
        in_order(world),
        lives(world.scene.entities, id),
        thing_at(world.scene.entities, id).facts.light.kind != LightKind::Dark,
        !others.contains(id),
        less(0, reach),
    ensures
        ({
            let after = field_written(
                world,
                Pick::Entity(id),
                entity_picks(others),
                Section::Lamp,
                1,
                Said::Float(reach),
            );
            lives(after.scene.entities, id) && thing_at(
                after.scene.entities,
                id,
            ).facts.light.lit()
        }),
{
    let pick = Pick::Entity(id);
    let picks = entity_picks(others);
    assert(!picks.contains(pick)) by {
        if picks.contains(pick) {
            let k = choose|k: int| 0 <= k < picks.len() && picks[k] == pick;
            assert(others[k] == id);
        }
    }
    a_field_is_written_once(world, pick, picks, Section::Lamp, 1, Said::Float(reach));
    let after = field_written(world, pick, picks, Section::Lamp, 1, Said::Float(reach));
    let light = thing_at(after.scene.entities, id).facts.light;
    let rows = rows_of(after, pick, Section::Lamp);
    if field_moves(world, pick, Section::Lamp, 1, Said::Float(reach)) {
        assert(rows[0] == rows_of(world, pick, Section::Lamp)[0]);
        assert(rows[1] == Said::Float(reach));
        assert(rows[0] == Said::Word(light.kind.number()));
        assert(rows[1] == Said::Float(light.range));
    }
}

/// What is marked: every living entity that is shown and draws nothing and is
/// something, each once, and nothing else. A lamp that is lit is marked as a
/// cone where it throws one and as a lamp otherwise, whatever else it is; of the
/// rest what throws particles is marked before what paints.
pub proof fn what_is_marked(world: Worldly, id: EntityId)
    requires
        world.scene.entities.len() <= u32::MAX,
    ensures
        ({
            let all = marks_among(world, living(world.scene.entities));
            let facts = thing_at(world.scene.entities, id).facts;
            let bare = lives(world.scene.entities, id) && visible(
                world.scene.entities,
                id,
                MAX_ENTITIES as nat,
            ) && !drawn(world, id);
            let lit = facts.light.kind != LightKind::Dark && less(0, facts.light.range);
            &&& all.contains(Mark { pick: Pick::Entity(id), kind: Kind::Spot }) <==> bare && lit
                && facts.light.kind == LightKind::Spot
            &&& all.contains(Mark { pick: Pick::Entity(id), kind: Kind::Lamp }) <==> bare && lit
                && facts.light.kind == LightKind::Point
            &&& all.contains(Mark { pick: Pick::Entity(id), kind: Kind::Thrower }) <==> bare && !lit
                && facts.emitter != 0
            &&& all.contains(Mark { pick: Pick::Entity(id), kind: Kind::Painter }) <==> bare && !lit
                && facts.emitter == 0 && facts.decal != 0
            &&& forall|i: int| 0 <= i < all.len() ==> (#[trigger] all[i]).pick is Entity
        }),
{
    crate::table::living_resolves(world.scene.entities);
    marks_listed(world, living(world.scene.entities), id);
}

/// A mark stands for one of the entities looked through, as that is marked.
proof fn marks_listed(world: Worldly, ids: Seq<EntityId>, id: EntityId)
    ensures
        ({
            let all = marks_among(world, ids);
            &&& forall|kind: Kind| #[trigger]
                all.contains(Mark { pick: Pick::Entity(id), kind }) <==> ids.contains(id) && mark_of(
                    world,
                    id,
                ) == Some(kind)
            &&& forall|i: int| 0 <= i < all.len() ==> (#[trigger] all[i]).pick is Entity
        }),
    decreases ids.len(),
{
    let all = marks_among(world, ids);
    if ids.len() > 0 {
        let less = ids.drop_last();
        marks_listed(world, less, id);
        let so_far = marks_among(world, less);
        let last = ids.last();
        assert forall|kind: Kind| #[trigger]
            all.contains(Mark { pick: Pick::Entity(id), kind }) <==> ids.contains(id) && mark_of(
                world,
                id,
            ) == Some(kind) by {
            let mark = Mark { pick: Pick::Entity(id), kind };
            assert(so_far.contains(mark) <==> less.contains(id) && mark_of(world, id) == Some(kind));
            if so_far.contains(mark) {
                let k = choose|k: int| 0 <= k < so_far.len() && so_far[k] == mark;
                assert(all[k] == mark);
            }
            if all.contains(mark) {
                let k = choose|k: int| 0 <= k < all.len() && all[k] == mark;
                if k < so_far.len() {
                    assert(so_far[k] == mark);
                }
            }
            if less.contains(id) {
                let k = choose|k: int| 0 <= k < less.len() && less[k] == id;
                assert(ids[k] == id);
            }
            if ids.contains(id) {
                let k = choose|k: int| 0 <= k < ids.len() && ids[k] == id;
                if k < less.len() {
                    assert(less[k] == id);
                }
            }
            assert(ids[ids.len() - 1] == last);
            if last == id && mark_of(world, id) == Some(kind) {
                assert(all[so_far.len() as int] == mark);
            }
        }
    }
}

/// A body has an outline where its shape is a box or a sphere and nothing draws
/// where it stands: what it drives is gone, or is shown and draws nothing. The
/// outline is that of a fluid where the body is full of one, and a click on it
/// selects what the body drives, or the body where that is gone.
pub proof fn what_is_outlined(world: Worldly, id: BodyId)
    requires
        lives(world.scene.bodies, id),
    ensures
        ({
            let body = thing_at(world.scene.bodies, id).facts;
            let driven = lives(world.scene.entities, body.entity);
            let bare = !driven || visible(
                world.scene.entities,
                body.entity,
                MAX_ENTITIES as nat,
            ) && !drawn(world, body.entity);
            let outline = outline_of(world, id);
            &&& outline is Some <==> bare && (body.shape == ShapeKind::Box || body.shape
                == ShapeKind::Sphere)
            &&& outline is Some ==> {
                &&& outline->0.body == Some(id)
                &&& outline->0.drawn == Drawn::Fluid <==> body.wet
                &&& outline->0.drawn == Drawn::Solid <==> !body.wet
                &&& driven ==> outline->0.pick == Pick::Entity(body.entity)
                &&& !driven ==> outline->0.pick == Pick::Body(id)
            }
        }),
{
}

/// A lamp that is lit offers its reach, and a cone its edge as well; nothing else
/// offers either.
pub proof fn what_is_offered(world: Worldly, id: EntityId)
    requires
        lives(world.scene.entities, id),
    ensures
        ({
            let light = thing_at(world.scene.entities, id).facts.light;
            let lit = light.kind != LightKind::Dark && less(0, light.range);
            let knobs = handles_of(world, Pick::Entity(id));
            &&& knobs.contains(Knob::Range) <==> lit
            &&& knobs.contains(Knob::Outer) <==> lit && light.kind == LightKind::Spot
            &&& !lit ==> knobs.len() == 0
        }),
{
    let knobs = handles_of(world, Pick::Entity(id));
    let light = thing_at(world.scene.entities, id).facts.light;
    if light.lit() {
        assert(knobs[0] == Knob::Range);
        if light.kind == LightKind::Spot {
            assert(knobs[1] == Knob::Outer);
        }
    }
}

/// What is outlined: every living joint as a tie, and every living body that has
/// an outline; nothing else, and a click on a joint's selects it.
pub proof fn what_the_outlines_are(world: Worldly, joint: JointId, body: BodyId)
    requires
        world.scene.joints.len() <= u32::MAX,
        world.scene.bodies.len() <= u32::MAX,
    ensures
        ties_among(living(world.scene.joints)).contains(
            Outline { pick: Pick::Joint(joint), drawn: Drawn::Tie, body: None },
        ) <==> lives(world.scene.joints, joint),
        lives(world.scene.bodies, body) && outline_of(world, body) is Some ==> solids_among(
            world,
            living(world.scene.bodies),
        ).contains(outline_of(world, body)->0),
        forall|i: int|
            0 <= i < solids_among(world, living(world.scene.bodies)).len() ==> (
            #[trigger] solids_among(world, living(world.scene.bodies))[i]).body is Some,
{
    crate::table::living_resolves(world.scene.joints);
    crate::table::living_resolves(world.scene.bodies);
    let ids = living(world.scene.joints);
    let ties = ties_among(ids);
    let wanted = Outline { pick: Pick::Joint(joint), drawn: Drawn::Tie, body: None };
    if lives(world.scene.joints, joint) {
        assert(ids.contains(joint));
        let k = choose|k: int| 0 <= k < ids.len() && ids[k] == joint;
        assert(ties[k] == wanted);
    }
    if ties.contains(wanted) {
        let k = choose|k: int| 0 <= k < ties.len() && ties[k] == wanted;
        assert(ids.contains(ids[k]));
    }
    solids_listed(world, living(world.scene.bodies), body);
}

/// A body with an outline is outlined among several.
proof fn solids_listed(world: Worldly, ids: Seq<BodyId>, body: BodyId)
    ensures
        ids.contains(body) && outline_of(world, body) is Some ==> solids_among(world, ids).contains(
            outline_of(world, body)->0,
        ),
        forall|i: int|
            0 <= i < solids_among(world, ids).len() ==> (#[trigger] solids_among(
                world,
                ids,
            )[i]).body is Some,
    decreases ids.len(),
{
    if ids.len() > 0 {
        let less = ids.drop_last();
        solids_listed(world, less, body);
        let so_far = solids_among(world, less);
        let all = solids_among(world, ids);
        if ids.contains(body) && outline_of(world, body) is Some {
            let k = choose|k: int| 0 <= k < ids.len() && ids[k] == body;
            if k < less.len() {
                assert(less[k] == body);
                let j = choose|j: int|
                    0 <= j < so_far.len() && so_far[j] == outline_of(world, body)->0;
                assert(all[j] == so_far[j]);
            } else {
                assert(all[so_far.len() as int] == outline_of(world, body)->0);
            }
        }
    }
}

/// A field of a record offers a handle exactly where it is drawn as a distance
/// and holds one number, or is drawn as a place and holds three; the handle
/// writes that field.
pub proof fn what_a_field_offers(draw: Draw, shape: Shape, table: usize, column: usize)
    ensures
        knob_of((draw, shape), table, column) is Some <==> (draw == Draw::Radius && shape
            == Shape::Number) || (draw == Draw::Point && shape == Shape::Place),
        draw == Draw::Radius && shape == Shape::Number ==> knob_of((draw, shape), table, column)
            == Some(Knob::Radius { table, column }),
        draw == Draw::Point && shape == Shape::Place ==> knob_of((draw, shape), table, column)
            == Some(Knob::Point { table, column }),
{
}

/// Every field that offers a handle is among the handles offered.
pub proof fn every_field_is_offered(
    tables: Seq<Vec<(Draw, Shape)>>,
    count: nat,
    table: usize,
    column: usize,
)
    requires
        table < count <= tables.len() <= usize::MAX,
        column < tables[table as int]@.len() <= usize::MAX,
    ensures
        ({
            let knob = knob_of(tables[table as int]@[column as int], table, column);
            knob is Some ==> knobs_of(tables, count).contains(knob->0)
        }),
    decreases count,
{
    let knob = knob_of(tables[table as int]@[column as int], table, column);
    let less = (count - 1) as nat;
    let before = knobs_of(tables, less);
    let rows = tables[count - 1]@;
    knobs_stay(rows, less as usize, rows.len(), before);
    if table < less {
        every_field_is_offered(tables, less, table, column);
        if knob is Some {
            let k = choose|k: int| 0 <= k < before.len() && before[k] == knob->0;
            assert(knobs_of(tables, count)[k] == knob->0);
        }
    } else if knob is Some {
        field_is_offered(rows, table, rows.len(), before, column);
    }
}

/// The handles before stay in front.
proof fn knobs_stay(rows: Seq<(Draw, Shape)>, table: usize, count: nat, so_far: Seq<Knob>)
    ensures
        knobs_in(rows, table, count, so_far).len() >= so_far.len(),
        forall|k: int|
            0 <= k < so_far.len() ==> #[trigger] knobs_in(rows, table, count, so_far)[k]
                == so_far[k],
    decreases count,
{
    if count > 0 {
        knobs_stay(rows, table, (count - 1) as nat, so_far);
    }
}

/// A field that offers a handle is among those of its record.
proof fn field_is_offered(
    rows: Seq<(Draw, Shape)>,
    table: usize,
    count: nat,
    so_far: Seq<Knob>,
    column: usize,
)
    requires
        column < count <= rows.len() <= usize::MAX,
        knob_of(rows[column as int], table, column) is Some,
    ensures
        knobs_in(rows, table, count, so_far).contains(
            knob_of(rows[column as int], table, column)->0,
        ),
    decreases count,
{
    let less = (count - 1) as nat;
    let before = knobs_in(rows, table, less, so_far);
    let all = knobs_in(rows, table, count, so_far);
    let knob = knob_of(rows[column as int], table, column)->0;
    if column < less {
        field_is_offered(rows, table, less, so_far, column);
        let k = choose|k: int| 0 <= k < before.len() && before[k] == knob;
        assert(all[k] == knob);
    } else {
        assert(all[before.len() as int] == knob);
    }
}

/// A drag of a lamp's reach writes its reach, of its edge its edge, and of a
/// record's handle the field the handle is of; a number never writes a place nor
/// a place a number.
pub proof fn what_a_drag_writes(
    tables: Seq<Vec<(Draw, Shape)>>,
    bits: u32,
    at: Triple,
    inside: Option<Triple>,
    table: usize,
    column: usize,
)
    ensures
        drag_of(tables, Knob::Range, Held::Number(bits), inside) == Some(
            (Section::Lamp, 1nat, Said::Float(bits)),
        ),
        drag_of(tables, Knob::Outer, Held::Number(bits), inside) == Some(
            (Section::Lamp, 2nat, Said::Float(bits)),
        ),
        drag_of(tables, Knob::Range, Held::Place(at), inside) is None,
        drag_of(tables, Knob::Outer, Held::Place(at), inside) is None,
        drag_of(tables, Knob::Radius { table, column }, Held::Place(at), inside) is None,
        drag_of(tables, Knob::Point { table, column }, Held::Number(bits), inside) is None,
        ({
            let there = table < tables.len() && column < tables[table as int]@.len();
            let place = fields_before(tables, table as nat) + column as nat;
            &&& there ==> drag_of(
                tables,
                Knob::Radius { table, column },
                Held::Number(bits),
                inside,
            ) == Some((Section::Records, place, Said::Float(bits)))
            &&& there && inside is Some ==> drag_of(
                tables,
                Knob::Point { table, column },
                Held::Place(at),
                inside,
            ) == Some((Section::Records, place, Said::Place(inside->0)))
            &&& !there ==> drag_of(
                tables,
                Knob::Radius { table, column },
                Held::Number(bits),
                inside,
            ) is None
        }),
{
}

/// A distance that is something is drawn as circles that wide, a place as a line
/// out to it, and nothing else is drawn.
pub proof fn what_a_field_draws(wide: u32, at: Triple, held: Said)
    ensures
        less(0, wide) ==> sketch_of(Draw::Radius, Said::Float(wide)) == Some(Sketch::Circles(wide)),
        !less(0, wide) ==> sketch_of(Draw::Radius, Said::Float(wide)) is None,
        sketch_of(Draw::Point, Said::Place(at)) == Some(Sketch::Line(at)),
        sketch_of(Draw::Nothing, held) is None,
        !(held is Float) ==> sketch_of(Draw::Radius, held) is None,
        !(held is Place) ==> sketch_of(Draw::Point, held) is None,
{
}

/// The step back a handle opens is called what the handle writes.
pub proof fn handles_are_called_what_they_write(table: usize, column: usize)
    ensures
        Knob::Range.said() == "reach"@,
        Knob::Outer.said() == "cone"@,
        (Knob::Radius { table, column }).said() == "record"@,
        (Knob::Point { table, column }).said() == "record"@,
{
}

} // verus!
