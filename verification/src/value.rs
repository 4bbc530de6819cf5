//! What the fields of a record hold, as plain values: carried, compared, copied
//! and put back, whatever record they are of.

use vstd::prelude::*;
use crate::fraction::{
    alike, quads_alike, same_fraction, same_quad, same_triple, triples_alike,
};
use crate::table::Handle;
use crate::text::same;
use crate::world::{Quad, Triple};

verus! {

/// What a field of a record holds.
#[derive(Debug)]
pub enum Value {
    Bool(bool),
    Int(i32),
    Float(u32),
    Text(String),
    Pair(u32, u32),
    Place(Triple),
    Turn(Quad),
    Color(Triple),
    Word(u32),
    Entity(Handle),
    Body(Handle),
    Joint(Handle),
    Pose(u32),
    Mesh(u32),
    Material(u32),
    Texture(u32),
}

/// What a field says.
pub ghost enum Said {
    Bool(bool),
    Int(i32),
    Float(u32),
    Text(Seq<char>),
    Pair(u32, u32),
    Place(Triple),
    Turn(Quad),
    Color(Triple),
    Word(u32),
    Entity(Handle),
    Body(Handle),
    Joint(Handle),
    Pose(u32),
    Mesh(u32),
    Material(u32),
    Texture(u32),
}

impl Value {
    /// What the field says.
    pub open spec fn view(&self) -> Said {
        match self {
            Value::Bool(held) => Said::Bool(*held),
            Value::Int(held) => Said::Int(*held),
            Value::Float(held) => Said::Float(*held),
            Value::Text(held) => Said::Text(held@),
            Value::Pair(x, y) => Said::Pair(*x, *y),
            Value::Place(held) => Said::Place(*held),
            Value::Turn(held) => Said::Turn(*held),
            Value::Color(held) => Said::Color(*held),
            Value::Word(held) => Said::Word(*held),
            Value::Entity(held) => Said::Entity(*held),
            Value::Body(held) => Said::Body(*held),
            Value::Joint(held) => Said::Joint(*held),
            Value::Pose(held) => Said::Pose(*held),
            Value::Mesh(held) => Said::Mesh(*held),
            Value::Material(held) => Said::Material(*held),
            Value::Texture(held) => Said::Texture(*held),
        }
    }

    /// A field that says the same.
    pub fn copy(&self) -> (result: Value)
        ensures
            result.view() == self.view(),
    {
        match self {
            Value::Bool(held) => Value::Bool(*held),
            Value::Int(held) => Value::Int(*held),
            Value::Float(held) => Value::Float(*held),
            Value::Text(held) => Value::Text(held.as_str().to_owned()),
            Value::Pair(x, y) => Value::Pair(*x, *y),
            Value::Place(held) => Value::Place(*held),
            Value::Turn(held) => Value::Turn(*held),
            Value::Color(held) => Value::Color(*held),
            Value::Word(held) => Value::Word(*held),
            Value::Entity(held) => Value::Entity(*held),
            Value::Body(held) => Value::Body(*held),
            Value::Joint(held) => Value::Joint(*held),
            Value::Pose(held) => Value::Pose(*held),
            Value::Mesh(held) => Value::Mesh(*held),
            Value::Material(held) => Value::Material(*held),
            Value::Texture(held) => Value::Texture(*held),
        }
    }

    /// Whether two fields say the same.
    pub fn same(&self, other: &Value) -> (result: bool)
        ensures
            result == said_alike(self.view(), other.view()),
    {
        match (self, other) {
            (Value::Bool(a), Value::Bool(b)) => *a == *b,
            (Value::Int(a), Value::Int(b)) => *a == *b,
            (Value::Float(a), Value::Float(b)) => same_fraction(*a, *b),
            (Value::Text(a), Value::Text(b)) => same(a.as_str(), b.as_str()),
            (Value::Pair(a, b), Value::Pair(c, d)) => same_fraction(*a, *c) && same_fraction(
                *b,
                *d,
            ),
            (Value::Place(a), Value::Place(b)) => same_triple(*a, *b),
            (Value::Turn(a), Value::Turn(b)) => same_quad(*a, *b),
            (Value::Color(a), Value::Color(b)) => same_triple(*a, *b),
            (Value::Word(a), Value::Word(b)) => *a == *b,
            (Value::Entity(a), Value::Entity(b)) => *a == *b,
            (Value::Body(a), Value::Body(b)) => *a == *b,
            (Value::Joint(a), Value::Joint(b)) => *a == *b,
            (Value::Pose(a), Value::Pose(b)) => *a == *b,
            (Value::Mesh(a), Value::Mesh(b)) => *a == *b,
            (Value::Material(a), Value::Material(b)) => *a == *b,
            (Value::Texture(a), Value::Texture(b)) => *a == *b,
            _ => false,
        }
    }
}

/// Whether two fields say the same: fractions as fractions do, and everything
/// else as it stands.
pub open spec fn said_alike(left: Said, right: Said) -> bool {
    match (left, right) {
        (Said::Float(a), Said::Float(b)) => alike(a, b),
        (Said::Pair(a, b), Said::Pair(c, d)) => alike(a, c) && alike(b, d),
        (Said::Place(a), Said::Place(b)) => triples_alike(a, b),
        (Said::Turn(a), Said::Turn(b)) => quads_alike(a, b),
        (Said::Color(a), Said::Color(b)) => triples_alike(a, b),
        _ => left == right,
    }
}

/// What several fields say.
pub open spec fn said_all(values: Seq<Value>) -> Seq<Said> {
    Seq::new(values.len(), |i: int| values[i].view())
}

/// What the fields of several records say.
pub open spec fn said_sheets(sheets: Seq<Vec<Value>>) -> Seq<Seq<Said>> {
    Seq::new(sheets.len(), |i: int| said_all(sheets[i]@))
}

/// Whether the fields of two records say the same.
pub open spec fn sheet_alike(left: Seq<Said>, right: Seq<Said>) -> bool {
    &&& left.len() == right.len()
    &&& forall|i: int| 0 <= i < left.len() ==> said_alike(#[trigger] left[i], right[i])
}

/// Whether the fields of several records say the same, record for record.
pub open spec fn sheets_alike(left: Seq<Seq<Said>>, right: Seq<Seq<Said>>) -> bool {
    &&& left.len() == right.len()
    &&& forall|i: int| 0 <= i < left.len() ==> sheet_alike(#[trigger] left[i], right[i])
}

/// What two fields say can be compared either way round.
pub proof fn said_alike_is_fair(left: Said, right: Said)
    ensures
        said_alike(left, right) == said_alike(right, left),
{
}

/// So can what two records hold.
pub proof fn sheet_alike_is_fair(left: Seq<Said>, right: Seq<Said>)
    ensures
        sheet_alike(left, right) == sheet_alike(right, left),
{
    assert forall|i: int| 0 <= i < left.len() && left.len() == right.len() implies said_alike(
        left[i],
        right[i],
    ) == said_alike(right[i], left[i]) by {
        said_alike_is_fair(left[i], right[i]);
    }
}

/// And what several records hold.
pub proof fn sheets_alike_is_fair(left: Seq<Seq<Said>>, right: Seq<Seq<Said>>)
    ensures
        sheets_alike(left, right) == sheets_alike(right, left),
{
    assert forall|i: int| 0 <= i < left.len() && left.len() == right.len() implies sheet_alike(
        left[i],
        right[i],
    ) == sheet_alike(right[i], left[i]) by {
        sheet_alike_is_fair(left[i], right[i]);
    }
}

/// The same fields again.
pub fn copy_sheet(sheet: &Vec<Value>) -> (result: Vec<Value>)
    ensures
        said_all(result@) == said_all(sheet@),
        result@.len() == sheet@.len(),
{
    let mut result: Vec<Value> = Vec::new();
    let mut i: usize = 0;
    while i < sheet.len()
        invariant
            i <= sheet@.len(),
            result@.len() == i,
            forall|k: int| 0 <= k < i ==> (#[trigger] result@[k]).view() == sheet@[k].view(),
        decreases sheet@.len() - i,
    {
        result.push(sheet[i].copy());
        i = i + 1;
    }
    assert(said_all(result@) =~= said_all(sheet@));
    result
}

/// The same fields of several records again.
pub fn copy_sheets(sheets: &Vec<Vec<Value>>) -> (result: Vec<Vec<Value>>)
    ensures
        said_sheets(result@) == said_sheets(sheets@),
        result@.len() == sheets@.len(),
{
    let mut result: Vec<Vec<Value>> = Vec::new();
    let mut i: usize = 0;
    while i < sheets.len()
        invariant
            i <= sheets@.len(),
            result@.len() == i,
            forall|k: int|
                0 <= k < i ==> said_all((#[trigger] result@[k])@) == said_all(sheets@[k]@),
        decreases sheets@.len() - i,
    {
        result.push(copy_sheet(&sheets[i]));
        i = i + 1;
    }
    assert(said_sheets(result@) =~= said_sheets(sheets@));
    result
}

/// Whether the fields of two records say the same.
pub fn same_sheet(left: &Vec<Value>, right: &Vec<Value>) -> (result: bool)
    ensures
        result == sheet_alike(said_all(left@), said_all(right@)),
{
    if left.len() != right.len() {
        return false;
    }
    let mut i: usize = 0;
    while i < left.len()
        invariant
            i <= left@.len(),
            left@.len() == right@.len(),
            forall|k: int|
                0 <= k < i ==> said_alike(#[trigger] said_all(left@)[k], said_all(right@)[k]),
        decreases left@.len() - i,
    {
        if !left[i].same(&right[i]) {
            assert(!said_alike(said_all(left@)[i as int], said_all(right@)[i as int]));
            return false;
        }
        i = i + 1;
    }
    true
}

/// Whether the fields of several records say the same, record for record.
pub fn same_sheets(left: &Vec<Vec<Value>>, right: &Vec<Vec<Value>>) -> (result: bool)
    ensures
        result == sheets_alike(said_sheets(left@), said_sheets(right@)),
{
    if left.len() != right.len() {
        return false;
    }
    let mut i: usize = 0;
    while i < left.len()
        invariant
            i <= left@.len(),
            left@.len() == right@.len(),
            forall|k: int|
                0 <= k < i ==> sheet_alike(
                    #[trigger] said_sheets(left@)[k],
                    said_sheets(right@)[k],
                ),
        decreases left@.len() - i,
    {
        if !same_sheet(&left[i], &right[i]) {
            assert(!sheet_alike(said_sheets(left@)[i as int], said_sheets(right@)[i as int]));
            return false;
        }
        i = i + 1;
    }
    true
}

/// Fields that say the same hold the same kind of thing, and everything that is
/// no fraction exactly; each fraction of a place, a pair, a turn or a color
/// counts.
pub proof fn fields_that_say_the_same(left: Said, right: Said)
    ensures
        said_alike(left, right) ==> (left is Float == right is Float) && (left is Pair
            == right is Pair) && (left is Place == right is Place) && (left is Turn
            == right is Turn) && (left is Color == right is Color),
        !(left is Float || left is Pair || left is Place || left is Turn || left is Color) ==> (
        said_alike(left, right) <==> left == right),
        left is Float && right is Float ==> said_alike(left, right) == alike(
            left->Float_0,
            right->Float_0,
        ),
        left is Pair && right is Pair ==> said_alike(left, right) == (alike(
            left->Pair_0,
            right->Pair_0,
        ) && alike(left->Pair_1, right->Pair_1)),
        left is Place && right is Place ==> said_alike(left, right) == (alike(
            left->Place_0.x,
            right->Place_0.x,
        ) && alike(left->Place_0.y, right->Place_0.y) && alike(left->Place_0.z, right->Place_0.z)),
        left is Color && right is Color ==> said_alike(left, right) == (alike(
            left->Color_0.x,
            right->Color_0.x,
        ) && alike(left->Color_0.y, right->Color_0.y) && alike(left->Color_0.z, right->Color_0.z)),
        left is Turn && right is Turn ==> said_alike(left, right) == (alike(
            left->Turn_0.x,
            right->Turn_0.x,
        ) && alike(left->Turn_0.y, right->Turn_0.y) && alike(left->Turn_0.z, right->Turn_0.z)
            && alike(left->Turn_0.w, right->Turn_0.w)),
{
}

/// Records say the same exactly where they hold as many fields and each says the
/// same as its own.
pub proof fn records_that_say_the_same(left: Seq<Said>, right: Seq<Said>, i: int)
    ensures
        left.len() != right.len() ==> !sheet_alike(left, right),
        0 <= i < left.len() && left.len() == right.len() && !said_alike(left[i], right[i])
            ==> !sheet_alike(left, right),
        left == right && (forall|k: int| 0 <= k < left.len() ==> said_alike(#[trigger] left[k], left[k]))
            ==> sheet_alike(left, right),
{
}

} // verus!
