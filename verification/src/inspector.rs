//! One thing in the world at a time, in detail: which fields get a row, how a
//! handle into the assets is spelled and typed, and what a frame of the panel
//! wrote.

use vstd::prelude::*;
use vstd::string::*;
use crate::fraction::{alike, same_fraction};
use crate::history::{begun, Past};
use crate::label::{
    body_called, body_label, body_said, body_words, entity_label, entity_words,
};
use crate::select::{picks_of, primary, Pick, Selection};
use crate::table::{lives, texts, thing_at};
use crate::text::{begins, decimal, digits, letters, part, plus, same, starts_with, trim, trimmed};
use crate::tree::{parent, parent_of};
use crate::value::{said_all, said_alike, Said, Value};
use crate::world::{
    asset_name, number_of, BodyId, Entity, EntityId, JointId, LightKind, Piece, Placement, Triple,
    World, Worldly,
};

verus! {

/// Whether a field is a handle into one of the asset registries, which is a
/// row by the name of what it points at.
pub open spec fn by_name(said: Said) -> bool {
    match said {
        Said::Mesh(_) => true,
        Said::Material(_) => true,
        Said::Texture(_) => true,
        _ => false,
    }
}

/// Whether a field gets a row: a handle into the world is picked in the
/// picture, a pose has no name to type, and everything else is shown.
pub open spec fn rowed(said: Said) -> bool {
    match said {
        Said::Entity(_) => false,
        Said::Body(_) => false,
        Said::Joint(_) => false,
        Said::Pose(_) => false,
        _ => true,
    }
}

/// Whether a field gets a row.
pub fn has_row(value: &Value) -> (result: bool)
    ensures
        result == rowed(value.view()),
{
    match value {
        Value::Entity(_) => false,
        Value::Body(_) => false,
        Value::Joint(_) => false,
        Value::Pose(_) => false,
        _ => true,
    }
}

/// The name of what a handle points at; nothing for one at nothing, and for
/// a field with no name.
pub open spec fn spelling(world: Worldly, said: Said) -> Seq<char> {
    match said {
        Said::Mesh(id) => asset_name(world.meshes, id),
        Said::Material(id) => asset_name(world.materials, id),
        Said::Texture(id) => asset_name(world.textures, id),
        _ => Seq::empty(),
    }
}

/// The name of the thing a handle points at, or nothing when it points at
/// nothing.
pub fn spelled(world: &World, value: &Value) -> (result: String)
    ensures
        result@ == spelling(world.view(), value.view()),
{
    match value {
        Value::Mesh(id) => world.meshes.name(*id).to_owned(),
        Value::Material(id) => world.materials.name(*id).to_owned(),
        Value::Texture(id) => world.textures.name(*id).to_owned(),
        _ => String::new(),
    }
}

/// The handle a typed name asks for: none for an empty field, what a registry
/// answers with for a name it knows, and the handle as it stands for a name
/// somebody is halfway through typing.
pub open spec fn typed_handle(world: Worldly, typed: Seq<char>, said: Said) -> Said {
    let wanted = trimmed(typed);
    let found = match said {
        Said::Mesh(_) => Said::Mesh(number_of(world.meshes, wanted) as u32),
        Said::Material(_) => Said::Material(number_of(world.materials, wanted) as u32),
        Said::Texture(_) => Said::Texture(number_of(world.textures, wanted) as u32),
        _ => said,
    };
    if !by_name(said) {
        said
    } else if wanted.len() == 0 {
        match said {
            Said::Mesh(_) => Said::Mesh(0),
            Said::Material(_) => Said::Material(0),
            _ => Said::Texture(0),
        }
    } else if spelling(world, found).len() == 0 {
        said
    } else {
        found
    }
}

/// Writes a handle from a name, if the name is one: not refused and not
/// cleared where it is not. Whether the handle moved.
pub fn resolve(world: &World, typed: &str, value: &mut Value) -> (result: bool)
    requires
        world.wf(),
    ensures
        final(value).view() == typed_handle(world.view(), typed@, old(value).view()),
        result == (final(value).view() != old(value).view()),
{
    let wanted: String = trim(typed);
    let empty: bool = wanted.as_str().is_empty();
    let found: Value = match value {
        Value::Mesh(_) => if empty {
            Value::Mesh(0)
        } else {
            Value::Mesh(world.meshes.find(wanted.as_str()))
        },
        Value::Material(_) => if empty {
            Value::Material(0)
        } else {
            Value::Material(world.materials.find(wanted.as_str()))
        },
        Value::Texture(_) => if empty {
            Value::Texture(0)
        } else {
            Value::Texture(world.textures.find(wanted.as_str()))
        },
        _ => {
            return false;
        },
    };
    if !empty && spelled(world, &found).as_str().is_empty() {
        return false;
    }
    if found.same(value) {
        return false;
    }
    *value = found;
    true
}

/// A half-typed name leaves a handle where it is, a whole one is taken, the
/// same name again is no move, and a row never changes its kind.
pub proof fn typing_a_name(world: World, typed: Seq<char>, said: Said)
    requires
        world.wf(),
    ensures
        ({
            let now = typed_handle(world.view(), typed, said);
            &&& typed_handle(world.view(), typed, now) == now
            &&& by_name(now) == by_name(said)
            &&& by_name(said) && trimmed(typed).len() > 0 && now != said ==> spelling(
                world.view(),
                now,
            ) == trimmed(typed)
        }),
{
    let wanted = trimmed(typed);
    crate::world::numbered_is_first(world.view().meshes, wanted, 1);
    crate::world::numbered_is_first(world.view().materials, wanted, 1);
    crate::world::numbered_is_first(world.view().textures, wanted, 1);
}

/// A field that was written: its place, what it held before and what it
/// holds now.
#[derive(Debug)]
pub struct Edit {
    pub index: usize,
    pub held: Value,
    pub value: Value,
}

/// A field that was written.
pub ghost struct Moved {
    pub index: int,
    pub held: Said,
    pub value: Said,
}

impl Edit {
    /// The field that was written.
    pub open spec fn view(&self) -> Moved {
        Moved { index: self.index as int, held: self.held.view(), value: self.value.view() }
    }
}

/// The fields that were written.
pub open spec fn moved_all(edits: Seq<Edit>) -> Seq<Moved> {
    Seq::new(edits.len(), |i: int| edits[i].view())
}

/// The fields among the first so many that have a row and say something else
/// than they did.
pub open spec fn moved_among(held: Seq<Said>, now: Seq<Said>, count: nat) -> Seq<Moved>
    decreases count,
{
    if count == 0 {
        Seq::empty()
    } else {
        let so_far = moved_among(held, now, (count - 1) as nat);
        if rowed(held[count - 1]) && !said_alike(held[count - 1], now[count - 1]) {
            so_far.push(Moved { index: count - 1, held: held[count - 1], value: now[count - 1] })
        } else {
            so_far
        }
    }
}

/// Every field a frame of the panel wrote: a write is guarded by what it says
/// having changed, field by field.
pub fn inspect(held: &Vec<Value>, now: &Vec<Value>) -> (result: Vec<Edit>)
    requires
        held@.len() == now@.len(),
    ensures
        moved_all(result@) == moved_among(said_all(held@), said_all(now@), held@.len()),
{
    let mut edits: Vec<Edit> = Vec::new();
    let mut i: usize = 0;
    assert(moved_all(edits@) =~= Seq::empty());
    while i < held.len()
        invariant
            i <= held@.len(),
            held@.len() == now@.len(),
            moved_all(edits@) == moved_among(said_all(held@), said_all(now@), i as nat),
        decreases held@.len() - i,
    {
        if has_row(&held[i]) && !held[i].same(&now[i]) {
            let ghost was = edits@;
            let edit: Edit = Edit { index: i, held: held[i].copy(), value: now[i].copy() };
            let ghost said = edit.view();
            edits.push(edit);
            assert(moved_all(edits@) =~= moved_all(was).push(said));
        }
        i = i + 1;
    }
    edits
}

/// An inspector nobody touches writes nothing, as long as every fraction it
/// shows is a number.
pub proof fn untouched_writes_nothing(held: Seq<Said>, count: nat)
    requires
        count <= held.len(),
        forall|i: int| 0 <= i < count ==> said_alike(#[trigger] held[i], held[i]),
    ensures
        moved_among(held, held, count) == Seq::<Moved>::empty(),
    decreases count,
{
    if count > 0 {
        untouched_writes_nothing(held, (count - 1) as nat);
    }
}

/// One number of a row, where another thing's row was changed: the new one
/// where that number was changed, and its own where it was not.
pub open spec fn number_spread(mine: u32, held: u32, value: u32) -> u32 {
    if alike(held, value) {
        mine
    } else {
        value
    }
}

/// A field once a change to the same field of another thing is written to it:
/// the whole of it, but for a place and a pair, whose numbers are written one
/// by one.
pub open spec fn said_spread(mine: Said, held: Said, value: Said) -> Said {
    match (mine, held, value) {
        (Said::Pair(x, y), Said::Pair(hx, hy), Said::Pair(vx, vy)) => Said::Pair(
            number_spread(x, hx, vx),
            number_spread(y, hy, vy),
        ),
        (Said::Place(m), Said::Place(h), Said::Place(v)) => Said::Place(
            Triple {
                x: number_spread(m.x, h.x, v.x),
                y: number_spread(m.y, h.y, v.y),
                z: number_spread(m.z, h.z, v.z),
            },
        ),
        _ => value,
    }
}

/// Several fields once the changes to those of another thing are written to
/// them.
pub open spec fn all_spread(mine: Seq<Said>, edits: Seq<Moved>) -> Seq<Said>
    decreases edits.len(),
{
    if edits.len() == 0 {
        mine
    } else {
        let so_far = all_spread(mine, edits.drop_last());
        let edit = edits.last();
        if 0 <= edit.index < so_far.len() {
            so_far.update(
                edit.index,
                said_spread(so_far[edit.index], edit.held, edit.value),
            )
        } else {
            so_far
        }
    }
}

/// One number of a row, where another thing's row was changed.
fn spread_number(mine: u32, held: u32, value: u32) -> (result: u32)
    ensures
        result == number_spread(mine, held, value),
{
    if same_fraction(held, value) {
        mine
    } else {
        value
    }
}

/// A field once a change to the same field of another thing is written to it.
fn spread_value(mine: &Value, held: &Value, value: &Value) -> (result: Value)
    ensures
        result.view() == said_spread(mine.view(), held.view(), value.view()),
{
    match (mine, held, value) {
        (Value::Pair(x, y), Value::Pair(hx, hy), Value::Pair(vx, vy)) => Value::Pair(
            spread_number(*x, *hx, *vx),
            spread_number(*y, *hy, *vy),
        ),
        (Value::Place(m), Value::Place(h), Value::Place(v)) => Value::Place(
            Triple {
                x: spread_number(m.x, h.x, v.x),
                y: spread_number(m.y, h.y, v.y),
                z: spread_number(m.z, h.z, v.z),
            },
        ),
        _ => value.copy(),
    }
}

/// Writes the fields changed on what is shown to another thing of its kind.
pub fn spread(mine: &mut Vec<Value>, edits: &Vec<Edit>)
    ensures
        said_all(final(mine)@) == all_spread(said_all(old(mine)@), moved_all(edits@)),
{
    let ghost was = said_all(mine@);
    let ghost moved = moved_all(edits@);
    let mut i: usize = 0;
    assert(moved.take(0) =~= Seq::empty());
    while i < edits.len()
        invariant
            i <= edits@.len(),
            moved == moved_all(edits@),
            said_all(mine@) == all_spread(was, moved.take(i as int)),
        decreases edits@.len() - i,
    {
        proof {
            assert(moved.take(i as int + 1).drop_last() =~= moved.take(i as int));
            assert(moved.take(i as int + 1).last() == edits@[i as int].view());
        }
        let at: usize = edits[i].index;
        if at < mine.len() {
            let ghost before = mine@;
            let now: Value = spread_value(&mine[at], &edits[i].held, &edits[i].value);
            mine.set(at, now);
            assert(said_all(mine@) =~= said_all(before).update(at as int, now.view()));
        }
        i = i + 1;
    }
    assert(moved.take(i as int) =~= moved);
}

/// A change is spread where it was made: a field with a row that says
/// something else takes the change, and every other keeps what it held, on
/// whatever thing.
pub proof fn a_change_is_spread_where_it_was_made(
    mine: Seq<Said>,
    held: Seq<Said>,
    now: Seq<Said>,
    count: nat,
)
    requires
        count <= held.len(),
        held.len() == now.len(),
    ensures
        ({
            let spread = all_spread(mine, moved_among(held, now, count));
            &&& spread.len() == mine.len()
            &&& forall|i: int|
                0 <= i < mine.len() ==> #[trigger] spread[i] == if i < count && rowed(held[i])
                    && !said_alike(held[i], now[i]) {
                    said_spread(mine[i], held[i], now[i])
                } else {
                    mine[i]
                }
        }),
    decreases count,
{
    if count > 0 {
        let less = (count - 1) as nat;
        a_change_is_spread_where_it_was_made(mine, held, now, less);
        let edits = moved_among(held, now, count);
        if rowed(held[count - 1]) && !said_alike(held[count - 1], now[count - 1]) {
            assert(edits.drop_last() =~= moved_among(held, now, less));
        }
    }
}

/// What the thing shown holds once the panel has written it: every row that
/// says something else as it says it, and the rest as it was.
pub open spec fn written(held: Seq<Said>, now: Seq<Said>) -> Seq<Said> {
    Seq::new(
        held.len(),
        |i: int|
            if rowed(held[i]) && !said_alike(held[i], now[i]) {
                now[i]
            } else {
                held[i]
            },
    )
}

/// A history with a change in a section about to be written, where that is
/// something to go back over.
pub open spec fn noted_in(past: Past, section: Section, world: Worldly) -> Past {
    match step_said(section) {
        Some(label) => begun(past, label, world),
        None => past,
    }
}

/// Where nothing was changed no row says something else.
pub proof fn nothing_moved(held: Seq<Said>, now: Seq<Said>, count: nat, i: int)
    requires
        count <= held.len(),
        held.len() == now.len(),
        moved_among(held, now, count).len() == 0,
        0 <= i < count,
    ensures
        !rowed(held[i]) || said_alike(held[i], now[i]),
    decreases count,
{
    if i < count - 1 {
        nothing_moved(held, now, (count - 1) as nat, i);
    }
}

/// Whose rows stand under what is picked, in the order they are drawn.
#[derive(Clone, Copy, Debug, PartialEq, Eq, Structural)]
pub enum Section {
    /// The world's own settings.
    World,
    /// The name field.
    Naming,
    /// What it hangs off.
    Hanging,
    /// The words for a body.
    Words,
    /// Position, rotation and scale.
    Placing,
    /// What it looks like.
    Look,
    /// What it shines.
    Lamp,
    /// What it throws off.
    Thrower,
    /// What ground it is.
    Land,
    /// What it paints.
    Paint,
    /// Whether decals paint it.
    Painted,
    /// What its records hold.
    Records,
    /// Everything the solver reads about a body.
    Solid,
    /// What a joint holds.
    Tie,
    /// A material's numbers.
    Coat,
    /// What stands in a model.
    Pieces,
}

/// The sections of the panel for what is picked.
pub open spec fn sections_of(pick: Pick) -> Seq<Section> {
    match pick {
        Pick::Nothing => seq![Section::World],
        Pick::Entity(_) => seq![
            Section::Naming,
            Section::Hanging,
            Section::Placing,
            Section::Look,
            Section::Lamp,
            Section::Thrower,
            Section::Land,
            Section::Paint,
            Section::Painted,
            Section::Records,
        ],
        Pick::Body(_) => seq![
            Section::Naming,
            Section::Words,
            Section::Placing,
            Section::Solid,
        ],
        Pick::Joint(_) => seq![Section::Naming, Section::Tie],
        Pick::Material(_) => seq![Section::Coat],
        Pick::Model(_) => seq![Section::Pieces],
    }
}

/// The selected thing, in detail: which sections the panel draws for it.
pub fn detail(pick: Pick) -> (result: Vec<Section>)
    ensures
        result@ == sections_of(pick),
{
    match pick {
        Pick::Nothing => vec![Section::World],
        Pick::Entity(_) => vec![
            Section::Naming,
            Section::Hanging,
            Section::Placing,
            Section::Look,
            Section::Lamp,
            Section::Thrower,
            Section::Land,
            Section::Paint,
            Section::Painted,
            Section::Records,
        ],
        Pick::Body(_) => vec![
            Section::Naming,
            Section::Words,
            Section::Placing,
            Section::Solid,
        ],
        Pick::Joint(_) => vec![Section::Naming, Section::Tie],
        Pick::Material(_) => vec![Section::Coat],
        Pick::Model(_) => vec![Section::Pieces],
    }
}

/// A change made on what is picked goes where it can be taken back, but for
/// one made on a material: that is a file the world happens to have loaded.
pub open spec fn step_said(section: Section) -> Option<Seq<char>> {
    match section {
        Section::World => Some("world"@),
        Section::Naming => Some("rename"@),
        Section::Placing => Some("place"@),
        Section::Look => Some("tint"@),
        Section::Lamp => Some("light"@),
        Section::Thrower => Some("emitter"@),
        Section::Land => Some("terrain"@),
        Section::Paint => Some("decal"@),
        Section::Painted => Some("decals paint it"@),
        Section::Records => Some("record"@),
        Section::Solid => Some("body"@),
        Section::Tie => Some("joint"@),
        Section::Hanging => None,
        Section::Words => None,
        Section::Coat => None,
        Section::Pieces => None,
    }
}

/// What a change in a section is called where it is written down, if it is.
pub fn step(section: Section) -> (result: Option<&'static str>)
    ensures
        result is Some == step_said(section) is Some,
        result is Some ==> result->0@ == step_said(section)->0,
{
    match section {
        Section::World => Some("world"),
        Section::Naming => Some("rename"),
        Section::Placing => Some("place"),
        Section::Look => Some("tint"),
        Section::Lamp => Some("light"),
        Section::Thrower => Some("emitter"),
        Section::Land => Some("terrain"),
        Section::Paint => Some("decal"),
        Section::Painted => Some("decals paint it"),
        Section::Records => Some("record"),
        Section::Solid => Some("body"),
        Section::Tie => Some("joint"),
        Section::Hanging => None,
        Section::Words => None,
        Section::Coat => None,
        Section::Pieces => None,
    }
}

/// The console line that puts a material's numbers back in its file; none for
/// one with no name.
pub fn write_material(name: &str) -> (result: Option<String>)
    ensures
        result is Some == (name@.len() > 0),
        result is Some ==> result->0@ == "material.write "@ + name@,
{
    if name.is_empty() {
        None
    } else {
        Some(plus("material.write ", name))
    }
}

/// What the panel says about the file beside a model's source.
#[derive(Debug)]
pub enum Guide {
    /// There is none to say anything about.
    Weak(&'static str),
    /// What it says.
    Text(String),
    /// There is none yet; the line that starts one.
    Start(&'static str, String),
}

/// The file beside a model's source, and what it says: `source` is whether
/// the project has a source under the name, and `beside` what the file beside
/// it holds.
pub fn guiding(name: &str, project: bool, source: bool, beside: Option<&str>) -> (result: Guide)
    ensures
        match result {
            Guide::Weak(words) => !(project && source) && words@ == if !project {
                "no project, so there is no source to stand beside"@
            } else {
                "no source under that name in assets/"@
            },
            Guide::Text(text) => project && source && beside is Some && text@ == trimmed(
                beside->0@,
            ),
            Guide::Start(words, line) => project && source && beside is None && words@
                == "none: the file compiles as the exporter wrote it"@ && line@ == "model.write "@
                + name@,
        },
{
    if !project {
        return Guide::Weak("no project, so there is no source to stand beside");
    }
    if !source {
        return Guide::Weak("no source under that name in assets/");
    }
    match beside {
        Some(text) => Guide::Text(trim(text)),
        None => Guide::Start(
            "none: the file compiles as the exporter wrote it",
            plus("model.write ", name),
        ),
    }
}

/// What the name field of a handle holds at the start of a frame: what was
/// typed while the row has the keyboard, and otherwise the name of what the
/// handle points at.
pub fn reference(world: &World, value: &Value, focused: bool, kept: Option<&str>) -> (result: String)
    ensures
        result@ == match kept {
            Some(typed) => if focused {
                typed@
            } else {
                spelling(world.view(), value.view())
            },
            None => spelling(world.view(), value.view()),
        },
{
    match kept {
        Some(typed) => if focused {
            typed.to_owned()
        } else {
            spelled(world, value)
        },
        None => spelled(world, value),
    }
}

/// The word a drop-down shows: the one held, or a question mark for a number
/// with none.
pub fn word_shown<'a>(list: &Vec<&'a str>, held: u32) -> (result: &'a str)
    ensures
        result@ == if held < list@.len() {
            list@[held as int]@
        } else {
            "?"@
        },
{
    let at: usize = held as usize;
    if at < list.len() {
        list[at]
    } else {
        "?"
    }
}

/// An asset name with a prefix taken off, when it has it.
pub open spec fn inside_of(name: Seq<char>, inside: Seq<char>) -> Seq<char> {
    if begins(name, inside) {
        name.skip(inside.len() as int)
    } else {
        name
    }
}

/// An asset name with the model's own prefix taken off, when it has one.
pub fn within(name: &str, inside: &str) -> (result: String)
    ensures
        result@ == inside_of(name@, inside@),
{
    if starts_with(name, inside) {
        let all: Vec<char> = letters(name);
        let prefix: Vec<char> = letters(inside);
        let rest: String = part(&all, prefix.len(), all.len());
        assert(rest@ =~= name@.skip(inside@.len() as int));
        rest
    } else {
        name.to_owned()
    }
}

/// What is taken off a name and what is left are the name; a name from
/// outside keeps the whole of itself.
pub proof fn within_takes_the_prefix_off(name: Seq<char>, inside: Seq<char>)
    ensures
        begins(name, inside) ==> inside + inside_of(name, inside) == name,
        !begins(name, inside) ==> inside_of(name, inside) == name,
        inside_of(inside + name, inside) == name,
{
    if begins(name, inside) {
        assert(inside + inside_of(name, inside) =~= name);
    }
    assert((inside + name).take(inside.len() as int) =~= inside);
    assert((inside + name).skip(inside.len() as int) =~= name);
}

/// A count with its noun.
pub open spec fn count_words(many: nat, noun: Seq<char>) -> Seq<char> {
    if many == 1 {
        "1 "@ + noun
    } else {
        digits(many) + " "@ + noun + "s"@
    }
}

/// A count with its noun, pluralized the one way English mostly is.
pub fn counted(many: usize, noun: &str) -> (result: String)
    ensures
        result@ == count_words(many as nat, noun@),
{
    if many == 1 {
        plus("1 ", noun)
    } else {
        let number: String = plus(decimal(many as u64).as_str(), " ");
        plus(plus(number.as_str(), noun).as_str(), "s")
    }
}

/// The three cells of a piece of a model: its name, what it is made of, and
/// what it wears. A lamp has no mesh to name and wears nothing, so its row
/// says what it shines.
pub open spec fn piece_words(world: Worldly, piece: Piece, inside: Seq<char>) -> (
    Seq<char>,
    Seq<char>,
    Seq<char>,
) {
    if piece.mesh == 0 && piece.light.kind != LightKind::Dark {
        (piece.name, piece.light.kind.said() + " lamp"@, Seq::empty())
    } else {
        (
            piece.name,
            inside_of(asset_name(world.meshes, piece.mesh), inside),
            inside_of(asset_name(world.materials, piece.material), inside),
        )
    }
}

/// One piece's row: its name, what it is made of, and what it wears.
pub fn piece_row(world: &World, placement: &Placement, inside: &str) -> (result: (
    String,
    String,
    String,
))
    ensures
        (result.0@, result.1@, result.2@) == piece_words(world.view(), placement.view(), inside@),
{
    if placement.mesh == 0 && placement.light.kind != LightKind::Dark {
        return (
            placement.name.clone(),
            plus(placement.light.kind.word(), " lamp"),
            String::new(),
        );
    }
    (
        placement.name.clone(),
        within(world.meshes.name(placement.mesh), inside),
        within(world.materials.name(placement.material), inside),
    )
}

/// How many values wait for each record nobody has declared.
#[derive(Debug)]
pub struct Waiting {
    pub record: String,
    pub many: usize,
}

/// What waits for a record.
pub ghost struct Kept {
    pub record: Seq<char>,
    pub many: nat,
}

/// What waits for several records.
pub open spec fn kept_all(waiting: Seq<Waiting>) -> Seq<Kept> {
    Seq::new(
        waiting.len(),
        |i: int| Kept { record: waiting[i].record@, many: waiting[i].many as nat },
    )
}

/// Where the count of a record is, if it has one.
pub open spec fn kept_at(waiting: Seq<Kept>, record: Seq<char>) -> Option<int>
    decreases waiting.len(),
{
    if waiting.len() == 0 {
        None
    } else if waiting[0].record == record {
        Some(0)
    } else {
        match kept_at(waiting.drop_first(), record) {
            None => None,
            Some(index) => Some(index + 1),
        }
    }
}

/// How many of several values wait for each record, in the order the records
/// were first met.
pub open spec fn tallied(records: Seq<Seq<char>>) -> Seq<Kept>
    decreases records.len(),
{
    if records.len() == 0 {
        Seq::empty()
    } else {
        let so_far = tallied(records.drop_last());
        let record = records.last();
        match kept_at(so_far, record) {
            Some(index) => so_far.update(
                index,
                Kept { record: so_far[index].record, many: so_far[index].many + 1 },
            ),
            None => so_far.push(Kept { record, many: 1 }),
        }
    }
}

/// A count of a record is of that record.
proof fn kept_is_of(waiting: Seq<Kept>, record: Seq<char>)
    ensures
        match kept_at(waiting, record) {
            None => forall|i: int|
                0 <= i < waiting.len() ==> (#[trigger] waiting[i]).record != record,
            Some(index) => 0 <= index < waiting.len() && waiting[index].record == record,
        },
    decreases waiting.len(),
{
    if waiting.len() > 0 && waiting[0].record != record {
        let less = waiting.drop_first();
        kept_is_of(less, record);
        if kept_at(less, record) is None {
            assert forall|i: int| 0 <= i < waiting.len() implies (#[trigger] waiting[i]).record
                != record by {
                if i > 0 {
                    assert(waiting[i] == less[i - 1]);
                }
            }
        }
    }
}

/// No count is higher than how many values there are.
proof fn tallies_are_small(records: Seq<Seq<char>>)
    ensures
        forall|i: int|
            0 <= i < tallied(records).len() ==> (#[trigger] tallied(records)[i]).many
                <= records.len(),
    decreases records.len(),
{
    if records.len() > 0 {
        tallies_are_small(records.drop_last());
        kept_is_of(tallied(records.drop_last()), records.last());
    }
}

/// How many values wait for each record nobody has declared, by the record
/// each one waits for.
pub fn waiting(records: &Vec<String>) -> (result: Vec<Waiting>)
    ensures
        kept_all(result@) == tallied(texts(records@)),
{
    let ghost all = texts(records@);
    let mut out: Vec<Waiting> = Vec::new();
    let mut i: usize = 0;
    assert(all.take(0) =~= Seq::empty());
    assert(kept_all(out@) =~= Seq::empty());
    while i < records.len()
        invariant
            i <= records@.len(),
            all == texts(records@),
            kept_all(out@) == tallied(all.take(i as int)),
        decreases records@.len() - i,
    {
        let ghost was = kept_all(out@);
        proof {
            assert(all.take(i as int + 1).drop_last() =~= all.take(i as int));
            assert(all.take(i as int + 1).last() == all[i as int]);
            tallies_are_small(all.take(i as int));
        }
        let record: &str = records[i].as_str();
        let mut k: usize = 0;
        assert(was.skip(0) =~= was);
        while k < out.len() && !same(out[k].record.as_str(), record)
            invariant
                k <= out@.len(),
                was == kept_all(out@),
                match kept_at(was.skip(k as int), record@) {
                    None => kept_at(was, record@) is None,
                    Some(index) => kept_at(was, record@) == Some(index + k),
                },
            decreases out@.len() - k,
        {
            assert(was.skip(k as int)[0] == was[k as int]);
            assert(was.skip(k as int).drop_first() =~= was.skip(k as int + 1));
            k = k + 1;
        }
        if k < out.len() {
            assert(was.skip(k as int)[0] == was[k as int]);
            assert(kept_at(was, record@) == Some(k as int));
            assert(was[k as int].many <= i);
            let more: usize = out[k].many + 1;
            out[k].many = more;
            assert(kept_all(out@) =~= was.update(
                k as int,
                Kept { record: was[k as int].record, many: was[k as int].many + 1 },
            ));
        } else {
            out.push(Waiting { record: record.to_owned(), many: 1 });
            assert(kept_all(out@) =~= was.push(Kept { record: record@, many: 1 }));
        }
        i = i + 1;
    }
    assert(all.take(i as int) =~= all);
    out
}

/// The line for what waits for a record nobody has declared.
pub fn waiting_line(one: &Waiting) -> (result: String)
    ensures
        result@ == one.record@ + ": "@ + count_words(one.many as nat, "value"@)
            + " kept for a record nobody has declared"@,
{
    let head: String = plus(one.record.as_str(), ": ");
    let count: String = counted(one.many, "value");
    plus(plus(head.as_str(), count.as_str()).as_str(), " kept for a record nobody has declared")
}

/// The line above the pieces of a model.
pub fn standing_line(pieces: usize) -> (result: String)
    ensures
        result@ == count_words(pieces as nat, "piece"@) + " standing"@,
{
    plus(counted(pieces, "piece").as_str(), " standing")
}

/// What an entity hangs off, by what it is called; none for a root.
pub fn hanging(world: &World, id: EntityId) -> (result: Option<String>)
    ensures
        result is Some == parent_of(world.view().scene.entities, id).some(),
        result is Some ==> result->0@ == entity_words(
            world.view(),
            parent_of(world.view().scene.entities, id),
        ),
{
    let above: EntityId = parent(&world.scene.entities, id);
    if above.is_some() {
        Some(entity_label(world, above))
    } else {
        None
    }
}

/// What a body is, in words, or that it is gone.
pub fn body_line(world: &World, id: BodyId) -> (result: String)
    ensures
        result@ == if lives(world.view().scene.bodies, id) {
            "a "@ + body_said(thing_at(world.view().scene.bodies, id).facts)
        } else {
            "gone"@
        },
{
    match world.scene.bodies.get(id) {
        Some(body) => plus("a ", body_words(body).as_str()),
        None => "gone".to_owned(),
    }
}

/// What a joint holds, by name: its two bodies, or a body and a point in the
/// world. None for a joint that is gone.
pub fn tie(world: &World, id: JointId) -> (result: Option<(String, String)>)
    ensures
        result is Some == lives(world.view().scene.joints, id),
        result is Some ==> ({
            let joint = thing_at(world.view().scene.joints, id).facts;
            &&& (result->0).0@ == body_called(world.view(), joint.first)
            &&& (result->0).1@ == if joint.second.some() {
                body_called(world.view(), joint.second)
            } else {
                "a point in the world"@
            }
        }),
{
    match world.scene.joints.get(id) {
        None => None,
        Some(joint) => {
            let second: String = if joint.second.is_some() {
                body_label(world, joint.second)
            } else {
                "a point in the world".to_owned()
            };
            Some((body_label(world, joint.first), second))
        },
    }
}

/// Whether two picks are of one kind.
pub open spec fn kin(one: Pick, other: Pick) -> bool {
    match (one, other) {
        (Pick::Nothing, Pick::Nothing) => true,
        (Pick::Entity(_), Pick::Entity(_)) => true,
        (Pick::Body(_), Pick::Body(_)) => true,
        (Pick::Joint(_), Pick::Joint(_)) => true,
        (Pick::Material(_), Pick::Material(_)) => true,
        (Pick::Model(_), Pick::Model(_)) => true,
        _ => false,
    }
}

/// Whether two picks are of one kind.
pub fn same_kind(one: Pick, other: Pick) -> (result: bool)
    ensures
        result == kin(one, other),
{
    match (one, other) {
        (Pick::Nothing, Pick::Nothing) => true,
        (Pick::Entity(_), Pick::Entity(_)) => true,
        (Pick::Body(_), Pick::Body(_)) => true,
        (Pick::Joint(_), Pick::Joint(_)) => true,
        (Pick::Material(_), Pick::Material(_)) => true,
        (Pick::Model(_), Pick::Model(_)) => true,
        _ => false,
    }
}

/// Everything else selected of the same kind as the primary, which a changed
/// field is written to as well.
pub fn others_of_kind(selection: &Selection) -> (result: Vec<Pick>)
    ensures
        result@ == if selection.view().len() == 0 {
            Seq::empty()
        } else {
            picks_of(selection.view()).drop_last().filter(
                |other: Pick| kin(other, primary(selection.view())),
            )
        },
{
    let at: Pick = selection.at();
    let others: Vec<Pick> = selection.others();
    let ghost all = others@;
    let ghost wanted = |other: Pick| kin(other, at);
    let mut found: Vec<Pick> = Vec::new();
    let mut i: usize = 0;
    proof {
        reveal(Seq::filter);
        assert(all.take(0).filter(wanted) =~= Seq::empty());
    }
    while i < others.len()
        invariant
            i <= others@.len(),
            all == others@,
            wanted == (|other: Pick| kin(other, at)),
            found@ == all.take(i as int).filter(wanted),
        decreases others@.len() - i,
    {
        proof {
            reveal(Seq::filter);
            assert(all.take(i as int + 1).drop_last() =~= all.take(i as int));
            assert(all.take(i as int + 1).last() == all[i as int]);
        }
        if same_kind(others[i], at) {
            found.push(others[i]);
        }
        i = i + 1;
    }
    assert(all.take(i as int) =~= all);
    proof {
        if selection.view().len() == 0 {
            assert(all =~= Seq::empty());
            assert(found@ =~= Seq::empty());
        }
    }
    found
}

/// What stands above the panel where several things are selected.
pub fn heading(selected: usize) -> (result: Option<String>)
    ensures
        result is Some == (selected > 1),
        result is Some ==> result->0@ == digits(selected as nat)
            + " selected: the last picked is shown, a drag moves all of them, and a field changed here is written to all of them of its kind"@,
{
    if selected > 1 {
        Some(
            plus(
                decimal(selected as u64).as_str(),
                " selected: the last picked is shown, a drag moves all of them, and a field changed here is written to all of them of its kind",
            ),
        )
    } else {
        None
    }
}

/// Whose the numbers are, in the mode the world is in.
pub fn footing(editing: bool) -> (result: &'static str)
    ensures
        result@ == if editing {
            "editing, so these are yours"@
        } else {
            "playing, so the game may write these back every step. F5 to edit"@
        },
{
    if editing {
        "editing, so these are yours"
    } else {
        "playing, so the game may write these back every step. F5 to edit"
    }
}

/// A typed name asks for the asset of that name where the registry of the field
/// has one, for none where nothing is typed, and for what is held otherwise.
pub proof fn what_a_typed_name_asks(world: Worldly, typed: Seq<char>, held: u32, number: int)
    requires
        world.meshes.len() <= u32::MAX,
        world.materials.len() <= u32::MAX,
        world.textures.len() <= u32::MAX,
        trimmed(typed).len() > 0,
    ensures
        ({
            let name = trimmed(typed);
            &&& 1 <= number < world.meshes.len() && world.meshes[number].name == name && (forall|
                i: int,
            | 1 <= i < number ==> (#[trigger] world.meshes[i]).name != name) ==> typed_handle(
                world,
                typed,
                Said::Mesh(held),
            ) == Said::Mesh(number as u32)
            &&& 1 <= number < world.materials.len() && world.materials[number].name == name && (
            forall|i: int| 1 <= i < number ==> (#[trigger] world.materials[i]).name != name)
                ==> typed_handle(world, typed, Said::Material(held)) == Said::Material(number as u32)
            &&& 1 <= number < world.textures.len() && world.textures[number].name == name && (
            forall|i: int| 1 <= i < number ==> (#[trigger] world.textures[i]).name != name)
                ==> typed_handle(world, typed, Said::Texture(held)) == Said::Texture(number as u32)
        }),
        typed_handle(world, Seq::empty(), Said::Mesh(held)) == Said::Mesh(0),
        typed_handle(world, Seq::empty(), Said::Material(held)) == Said::Material(0),
        typed_handle(world, Seq::empty(), Said::Texture(held)) == Said::Texture(0),
{
    let name = trimmed(typed);
    crate::world::numbered_is_first(world.meshes, name, 1);
    crate::world::numbered_is_first(world.materials, name, 1);
    crate::world::numbered_is_first(world.textures, name, 1);
    reveal_with_fuel(crate::text::trim_start, 2);
    reveal_with_fuel(crate::text::trim_end, 2);
}

/// Only a number that was changed is spread, and the others of a place or a pair
/// stay each thing's own; any other field is spread whole.
pub proof fn what_is_spread(mine: Triple, held: Triple, now: Triple, own: Said, was: Said, said: Said)
    ensures
        ({
            let spread = said_spread(Said::Place(mine), Said::Place(held), Said::Place(now));
            &&& spread is Place
            &&& alike(held.x, now.x) ==> spread->Place_0.x == mine.x
            &&& !alike(held.x, now.x) ==> spread->Place_0.x == now.x
            &&& alike(held.y, now.y) ==> spread->Place_0.y == mine.y
            &&& !alike(held.y, now.y) ==> spread->Place_0.y == now.y
            &&& alike(held.z, now.z) ==> spread->Place_0.z == mine.z
            &&& !alike(held.z, now.z) ==> spread->Place_0.z == now.z
        }),
        ({
            let spread = said_spread(
                Said::Pair(mine.x, mine.y),
                Said::Pair(held.x, held.y),
                Said::Pair(now.x, now.y),
            );
            &&& spread is Pair
            &&& alike(held.x, now.x) ==> spread->Pair_0 == mine.x
            &&& !alike(held.x, now.x) ==> spread->Pair_0 == now.x
            &&& alike(held.y, now.y) ==> spread->Pair_1 == mine.y
            &&& !alike(held.y, now.y) ==> spread->Pair_1 == now.y
        }),
        !(own is Place) && !(own is Pair) ==> said_spread(own, was, said) == said,
{
}

/// Every field has a row but a handle to something standing in the world and a
/// pose, and a field is written exactly where it has a row that says something
/// else.
pub proof fn which_fields_have_rows(said: Said, held: Seq<Said>, now: Seq<Said>, i: int)
    requires
        0 <= i < held.len(),
        held.len() == now.len(),
    ensures
        rowed(said) <==> !(said is Entity || said is Body || said is Joint || said is Pose),
        rowed(held[i]) && !said_alike(held[i], now[i]) ==> written(held, now)[i] == now[i],
        !rowed(held[i]) || said_alike(held[i], now[i]) ==> written(held, now)[i] == held[i],
{
}

/// What waits for a record is counted once for each value that does: a record
/// that values wait for has one count, which is how many they are, and a record
/// nothing waits for has none.
pub proof fn every_value_is_counted(records: Seq<Seq<char>>, record: Seq<char>)
    ensures
        ({
            let all = tallied(records);
            let many = records.filter(|one: Seq<char>| one == record).len();
            &&& many > 0 ==> exists|i: int|
                0 <= i < all.len() && #[trigger] all[i] == (Kept { record, many })
            &&& many == 0 ==> forall|i: int|
                0 <= i < all.len() ==> (#[trigger] all[i]).record != record
            &&& forall|i: int, j: int|
                0 <= i < j < all.len() ==> (#[trigger] all[i]).record != (#[trigger] all[j]).record
        }),
    decreases records.len(),
{
    reveal(Seq::filter);
    let wanted = |one: Seq<char>| one == record;
    let all = tallied(records);
    if records.len() > 0 {
        let less = records.drop_last();
        let last = records.last();
        let so_far = tallied(less);
        every_value_is_counted(less, record);
        every_value_is_counted(less, last);
        kept_is_of(so_far, last);
        let before = less.filter(wanted).len();
        let many = records.filter(wanted).len();
        match kept_at(so_far, last) {
            Some(index) => {
                if last == record {
                    let i = choose|i: int|
                        0 <= i < so_far.len() && #[trigger] so_far[i] == (Kept {
                            record,
                            many: before,
                        });
                    assert(i == index);
                    assert(all[index] == (Kept { record, many }));
                } else if before > 0 {
                    let i = choose|i: int|
                        0 <= i < so_far.len() && #[trigger] so_far[i] == (Kept {
                            record,
                            many: before,
                        });
                    assert(all[i] == so_far[i]);
                }
            },
            None => {
                if last == record {
                    assert(before == 0) by {
                        if before > 0 {
                            let i = choose|i: int|
                                0 <= i < so_far.len() && #[trigger] so_far[i] == (Kept {
                                    record,
                                    many: before,
                                });
                            assert(so_far[i].record == last);
                        }
                    }
                    assert(all[so_far.len() as int] == (Kept { record, many }));
                } else if before > 0 {
                    let i = choose|i: int|
                        0 <= i < so_far.len() && #[trigger] so_far[i] == (Kept {
                            record,
                            many: before,
                        });
                    assert(all[i] == so_far[i]);
                }
            },
        }
    }
}

/// One is said with its noun alone, and every other number with an s behind it.
pub proof fn counts_agree_with_their_nouns(many: nat, noun: Seq<char>)
    ensures
        many == 1 ==> count_words(many, noun) == seq!['1', ' '] + noun,
        many != 1 ==> count_words(many, noun) == digits(many) + seq![' '] + noun + seq!['s'],
{
    reveal_strlit("1 ");
    reveal_strlit(" ");
    reveal_strlit("s");
    assert("1 "@ =~= seq!['1', ' ']);
    assert(" "@ =~= seq![' ']);
    assert("s"@ =~= seq!['s']);
}

/// Picks are of one kind exactly where they are both nothing, both entities,
/// both bodies, both joints, both materials or both models.
pub proof fn kin_are_of_one_kind(one: Pick, other: Pick)
    ensures
        kin(one, other) <==> (one is Entity == other is Entity) && (one is Body == other is Body)
            && (one is Joint == other is Joint) && (one is Material == other is Material) && (
        one is Model == other is Model),
        kin(one, other) == kin(other, one),
{
}

/// A piece is shown by its name, its mesh and its material, without what they
/// share with the model; a lamp without a mesh by how it shines.
pub proof fn a_piece_is_shown_by_what_it_wears(world: Worldly, piece: Piece, inside: Seq<char>)
    ensures
        ({
            let cells = piece_words(world, piece, inside);
            let lamp = piece.mesh == 0 && piece.light.kind != LightKind::Dark;
            &&& cells.0 == piece.name
            &&& lamp ==> cells.2.len() == 0
            &&& lamp && piece.light.kind == LightKind::Point ==> cells.1 == "point"@ + " lamp"@
            &&& lamp && piece.light.kind == LightKind::Spot ==> cells.1 == "spot"@ + " lamp"@
            &&& !lamp && piece.mesh < world.meshes.len() ==> cells.1 == inside_of(
                world.meshes[piece.mesh as int].name,
                inside,
            )
            &&& !lamp && piece.material < world.materials.len() ==> cells.2 == inside_of(
                world.materials[piece.material as int].name,
                inside,
            )
        }),
{
}

/// What each section's step back is called, and which sections write none down.
pub proof fn every_section_has_its_step(section: Section)
    ensures
        step_said(Section::World) == Some("world"@),
        step_said(Section::Naming) == Some("rename"@),
        step_said(Section::Placing) == Some("place"@),
        step_said(Section::Look) == Some("tint"@),
        step_said(Section::Lamp) == Some("light"@),
        step_said(Section::Thrower) == Some("emitter"@),
        step_said(Section::Land) == Some("terrain"@),
        step_said(Section::Paint) == Some("decal"@),
        step_said(Section::Painted) == Some("decals paint it"@),
        step_said(Section::Records) == Some("record"@),
        step_said(Section::Solid) == Some("body"@),
        step_said(Section::Tie) == Some("joint"@),
        step_said(section) is None <==> section == Section::Hanging || section == Section::Words
            || section == Section::Coat || section == Section::Pieces,
{
}

/// Every section is drawn once under the things it is about and under nothing
/// else: whatever is in the world has a name field, only what stands somewhere
/// is placed, and what an entity looks like, shines, throws, stands on
/// and paints is only an entity's.
pub proof fn sections_stand_under_their_things(pick: Pick)
    ensures
        ({
            let all = sections_of(pick);
            &&& all.contains(Section::World) <==> pick is Nothing
            &&& all.contains(Section::Naming) <==> pick is Entity || pick is Body || pick is Joint
            &&& all.contains(Section::Placing) <==> pick is Entity || pick is Body
            &&& all.contains(Section::Look) <==> pick is Entity
            &&& all.contains(Section::Lamp) <==> pick is Entity
            &&& all.contains(Section::Thrower) <==> pick is Entity
            &&& all.contains(Section::Land) <==> pick is Entity
            &&& all.contains(Section::Paint) <==> pick is Entity
            &&& all.contains(Section::Painted) <==> pick is Entity
            &&& all.contains(Section::Records) <==> pick is Entity
            &&& all.contains(Section::Hanging) <==> pick is Entity
            &&& all.contains(Section::Words) <==> pick is Body
            &&& all.contains(Section::Solid) <==> pick is Body
            &&& all.contains(Section::Tie) <==> pick is Joint
            &&& all.contains(Section::Coat) <==> pick is Material
            &&& all.contains(Section::Pieces) <==> pick is Model
            &&& all.no_duplicates()
        }),
{
    let all = sections_of(pick);
    match pick {
        Pick::Nothing => {
            assert(all[0] == Section::World);
        },
        Pick::Entity(_) => {
            assert(all[0] == Section::Naming && all[1] == Section::Hanging && all[2]
                == Section::Placing && all[3] == Section::Look && all[4] == Section::Lamp && all[5]
                == Section::Thrower && all[6] == Section::Land && all[7] == Section::Paint && all[8]
                == Section::Painted && all[9] == Section::Records);
        },
        Pick::Body(_) => {
            assert(all[0] == Section::Naming && all[1] == Section::Words && all[2]
                == Section::Placing && all[3] == Section::Solid);
        },
        Pick::Joint(_) => {
            assert(all[0] == Section::Naming && all[1] == Section::Tie);
        },
        Pick::Material(_) => {
            assert(all[0] == Section::Coat);
        },
        Pick::Model(_) => {
            assert(all[0] == Section::Pieces);
        },
    }
}

} // verus!
