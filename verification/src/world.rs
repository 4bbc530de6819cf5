//! The world a panel works on: entities, the bodies that drive them and the
//! joints that hold those, with the assets they name.
//!
//! Where a thing stands is a transform of fractions, kept here as the bit
//! patterns of single-precision numbers: carried, copied and compared, never
//! reckoned with.

use vstd::prelude::*;
use crate::fraction::{
    alike, less, less_fraction, quads_alike, same_fraction, same_quad, same_triple, triples_alike,
};
use crate::table::{table_alike, table_alike_is_fair, Facts, Handle, Standing, Table};
use crate::text::same;
use crate::value::{
    copy_sheet, said_all, same_sheet, sheet_alike, sheet_alike_is_fair, Said, Value,
};

verus! {

/// How many entities a world has room for.
pub const MAX_ENTITIES: usize = 1024;

/// How many bodies a world has room for.
pub const MAX_BODIES: usize = 1024;

/// How many joints a world has room for.
pub const MAX_JOINTS: usize = 1024;

/// What an entity is reached by.
pub type EntityId = Handle;

/// What a body is reached by.
pub type BodyId = Handle;

/// What a joint is reached by.
pub type JointId = Handle;

/// Three fractions, by their bits.
#[derive(Clone, Copy, Debug, PartialEq, Eq, Structural)]
pub struct Triple {
    pub x: u32,
    pub y: u32,
    pub z: u32,
}

/// Four fractions, by their bits.
#[derive(Clone, Copy, Debug, PartialEq, Eq, Structural)]
pub struct Quad {
    pub x: u32,
    pub y: u32,
    pub z: u32,
    pub w: u32,
}

/// Where something stands, how it is turned and how big it is.
#[derive(Clone, Copy, Debug, PartialEq, Eq, Structural)]
pub struct Transform {
    pub position: Triple,
    pub rotation: Quad,
    pub scale: Triple,
}

/// Whether two things stand alike: fractions as fractions do.
pub open spec fn stands_alike(left: Transform, right: Transform) -> bool {
    triples_alike(left.position, right.position) && quads_alike(left.rotation, right.rotation)
        && triples_alike(left.scale, right.scale)
}

/// Whether two things stand alike.
pub fn same_transform(left: Transform, right: Transform) -> (result: bool)
    ensures
        result == stands_alike(left, right),
{
    same_triple(left.position, right.position) && same_quad(left.rotation, right.rotation)
        && same_triple(left.scale, right.scale)
}

/// How a lamp throws its light.
#[derive(Clone, Copy, Debug, PartialEq, Eq, Structural)]
pub enum LightKind {
    /// Not at all.
    Dark,
    /// Every way.
    Point,
    /// In a cone.
    Spot,
}

impl LightKind {
    /// The word for it.
    pub open spec fn said(self) -> Seq<char> {
        match self {
            LightKind::Dark => "none"@,
            LightKind::Point => "point"@,
            LightKind::Spot => "spot"@,
        }
    }

    /// The word for it.
    pub fn word(self) -> (result: &'static str)
        ensures
            result@ == self.said(),
    {
        match self {
            LightKind::Dark => "none",
            LightKind::Point => "point",
            LightKind::Spot => "spot",
        }
    }

    /// Its place in the list of words.
    pub open spec fn number(self) -> u32 {
        match self {
            LightKind::Dark => 0,
            LightKind::Point => 1,
            LightKind::Spot => 2,
        }
    }

    /// Its place in the list of words.
    pub fn place(self) -> (result: u32)
        ensures
            result == self.number(),
    {
        match self {
            LightKind::Dark => 0,
            LightKind::Point => 1,
            LightKind::Spot => 2,
        }
    }

    /// What the word at a place in the list says; past its end, the last.
    pub open spec fn told(word: u32) -> LightKind {
        if word == 0 {
            LightKind::Dark
        } else if word == 1 {
            LightKind::Point
        } else {
            LightKind::Spot
        }
    }

    /// What the word at a place in the list says.
    pub fn of(word: u32) -> (result: LightKind)
        ensures
            result == LightKind::told(word),
    {
        if word == 0 {
            LightKind::Dark
        } else if word == 1 {
            LightKind::Point
        } else {
            LightKind::Spot
        }
    }
}

/// What an entity shines.
#[derive(Clone, Copy, Debug, PartialEq, Eq, Structural)]
pub struct Light {
    pub kind: LightKind,
    /// How far it reaches, by its bits.
    pub range: u32,
    /// The half-angle of a cone's edge, by its bits.
    pub outer: u32,
}

impl Light {
    /// Whether it throws any light at all: of some kind, with some reach.
    pub open spec fn lit(self) -> bool {
        self.kind != LightKind::Dark && less(0, self.range)
    }

    /// Whether it throws any light at all.
    pub fn is_lit(self) -> (result: bool)
        ensures
            result == self.lit(),
    {
        self.kind != LightKind::Dark && less_fraction(0, self.range)
    }
}

/// What a panel decides by about an entity: where it stands and what it hangs
/// off, what draws it, and of its lamp, its emitter, its ground and its decal
/// which kind each is. What else their fields hold is in its records, @ref
/// [`crate::table::Thing`].
#[derive(Clone, Copy, Debug, PartialEq, Eq, Structural)]
pub struct Entity {
    /// What it hangs off, or nothing.
    pub parent: EntityId,
    /// Where it stands inside what it hangs off.
    pub transform: Transform,
    /// Whether its own word hides it.
    pub hidden: bool,
    /// The mesh it draws; nought for none.
    pub mesh: u32,
    /// The material it wears; nought for the default.
    pub material: u32,
    /// What it shines.
    pub light: Light,
    /// What kind of particles it throws; nought for none.
    pub emitter: u32,
    /// What kind of ground it is; nought for none.
    pub terrain: u32,
    /// How it paints what is around it; nought for not at all.
    pub decal: u32,
    /// Whether decals paint it.
    pub takes_decals: bool,
    /// Whether it stands for everything that hangs off it.
    pub group: bool,
}

/// How a body moves.
#[derive(Clone, Copy, Debug, PartialEq, Eq, Structural)]
pub enum BodyKind {
    Static,
    Kinematic,
    Dynamic,
}

impl BodyKind {
    /// The word for it.
    pub open spec fn said(self) -> Seq<char> {
        match self {
            BodyKind::Static => "static"@,
            BodyKind::Kinematic => "kinematic"@,
            BodyKind::Dynamic => "dynamic"@,
        }
    }

    /// The word for it.
    pub fn word(self) -> (result: &'static str)
        ensures
            result@ == self.said(),
    {
        match self {
            BodyKind::Static => "static",
            BodyKind::Kinematic => "kinematic",
            BodyKind::Dynamic => "dynamic",
        }
    }

    /// Its place in the list of words.
    pub open spec fn number(self) -> u32 {
        match self {
            BodyKind::Static => 0,
            BodyKind::Kinematic => 1,
            BodyKind::Dynamic => 2,
        }
    }

    /// Its place in the list of words.
    pub fn place(self) -> (result: u32)
        ensures
            result == self.number(),
    {
        match self {
            BodyKind::Static => 0,
            BodyKind::Kinematic => 1,
            BodyKind::Dynamic => 2,
        }
    }

    /// What the word at a place in the list says; past its end, the last.
    pub open spec fn told(word: u32) -> BodyKind {
        if word == 0 {
            BodyKind::Static
        } else if word == 1 {
            BodyKind::Kinematic
        } else {
            BodyKind::Dynamic
        }
    }

    /// What the word at a place in the list says.
    pub fn of(word: u32) -> (result: BodyKind)
        ensures
            result == BodyKind::told(word),
    {
        if word == 0 {
            BodyKind::Static
        } else if word == 1 {
            BodyKind::Kinematic
        } else {
            BodyKind::Dynamic
        }
    }
}

/// What a body is shaped like.
#[derive(Clone, Copy, Debug, PartialEq, Eq, Structural)]
pub enum ShapeKind {
    Box,
    Sphere,
    Mesh,
}

impl ShapeKind {
    /// The word for it.
    pub open spec fn said(self) -> Seq<char> {
        match self {
            ShapeKind::Box => "box"@,
            ShapeKind::Sphere => "sphere"@,
            ShapeKind::Mesh => "mesh"@,
        }
    }

    /// The word for it.
    pub fn word(self) -> (result: &'static str)
        ensures
            result@ == self.said(),
    {
        match self {
            ShapeKind::Box => "box",
            ShapeKind::Sphere => "sphere",
            ShapeKind::Mesh => "mesh",
        }
    }

    /// Its place in the list of words.
    pub open spec fn number(self) -> u32 {
        match self {
            ShapeKind::Box => 0,
            ShapeKind::Sphere => 1,
            ShapeKind::Mesh => 2,
        }
    }

    /// Its place in the list of words.
    pub fn place(self) -> (result: u32)
        ensures
            result == self.number(),
    {
        match self {
            ShapeKind::Box => 0,
            ShapeKind::Sphere => 1,
            ShapeKind::Mesh => 2,
        }
    }

    /// What the word at a place in the list says; past its end, the last.
    pub open spec fn told(word: u32) -> ShapeKind {
        if word == 0 {
            ShapeKind::Box
        } else if word == 1 {
            ShapeKind::Sphere
        } else {
            ShapeKind::Mesh
        }
    }

    /// What the word at a place in the list says.
    pub fn of(word: u32) -> (result: ShapeKind)
        ensures
            result == ShapeKind::told(word),
    {
        if word == 0 {
            ShapeKind::Box
        } else if word == 1 {
            ShapeKind::Sphere
        } else {
            ShapeKind::Mesh
        }
    }
}

/// What a panel decides by about a body: what it drives, where it stands, how it
/// moves, and what it is shaped like. What else the solver reads is in its
/// records.
#[derive(Clone, Copy, Debug, PartialEq, Eq, Structural)]
pub struct Body {
    /// The entity it drives, or nothing.
    pub entity: EntityId,
    /// Where it stands in the world.
    pub transform: Transform,
    pub kind: BodyKind,
    pub shape: ShapeKind,
    /// The mesh it collides as, for a body shaped like one; nought for none.
    pub collider: u32,
    /// Whether it is there and does not push.
    pub sensor: bool,
    /// Whether it is full of fluid.
    pub wet: bool,
}

/// How a joint holds.
#[derive(Clone, Copy, Debug, PartialEq, Eq, Structural)]
pub enum JointKind {
    Weld,
    Axis,
    Rope,
}

impl JointKind {
    /// The word for it.
    pub open spec fn said(self) -> Seq<char> {
        match self {
            JointKind::Weld => "weld"@,
            JointKind::Axis => "axis"@,
            JointKind::Rope => "rope"@,
        }
    }

    /// The word for it.
    pub fn word(self) -> (result: &'static str)
        ensures
            result@ == self.said(),
    {
        match self {
            JointKind::Weld => "weld",
            JointKind::Axis => "axis",
            JointKind::Rope => "rope",
        }
    }

    /// Its place in the list of words.
    pub open spec fn number(self) -> u32 {
        match self {
            JointKind::Weld => 0,
            JointKind::Axis => 1,
            JointKind::Rope => 2,
        }
    }

    /// Its place in the list of words.
    pub fn place(self) -> (result: u32)
        ensures
            result == self.number(),
    {
        match self {
            JointKind::Weld => 0,
            JointKind::Axis => 1,
            JointKind::Rope => 2,
        }
    }

    /// What the word at a place in the list says; past its end, the last.
    pub open spec fn told(word: u32) -> JointKind {
        if word == 0 {
            JointKind::Weld
        } else if word == 1 {
            JointKind::Axis
        } else {
            JointKind::Rope
        }
    }

    /// What the word at a place in the list says.
    pub fn of(word: u32) -> (result: JointKind)
        ensures
            result == JointKind::told(word),
    {
        if word == 0 {
            JointKind::Weld
        } else if word == 1 {
            JointKind::Axis
        } else {
            JointKind::Rope
        }
    }
}

/// What a panel decides by about a joint: how it holds, and what. Its numbers
/// are in its records.
#[derive(Clone, Copy, Debug, PartialEq, Eq, Structural)]
pub struct Joint {
    pub kind: JointKind,
    /// The body it holds first.
    pub first: BodyId,
    /// The body it holds second, or nothing for a point in the world.
    pub second: BodyId,
}

/// Whether two lamps say the same.
pub open spec fn light_alike(left: Light, right: Light) -> bool {
    left.kind == right.kind && alike(left.range, right.range) && alike(left.outer, right.outer)
}

impl Facts for Entity {
    open spec fn like(self, other: Entity) -> bool {
        &&& self.parent == other.parent
        &&& stands_alike(self.transform, other.transform)
        &&& self.hidden == other.hidden
        &&& self.mesh == other.mesh
        &&& self.material == other.material
        &&& light_alike(self.light, other.light)
        &&& self.emitter == other.emitter
        &&& self.terrain == other.terrain
        &&& self.decal == other.decal
        &&& self.takes_decals == other.takes_decals
        &&& self.group == other.group
    }

    fn same(self, other: Entity) -> (result: bool) {
        self.parent == other.parent && same_transform(self.transform, other.transform)
            && self.hidden == other.hidden && self.mesh == other.mesh && self.material
            == other.material && self.light.kind == other.light.kind && same_fraction(
            self.light.range,
            other.light.range,
        ) && same_fraction(self.light.outer, other.light.outer) && self.emitter == other.emitter
            && self.terrain == other.terrain && self.decal == other.decal && self.takes_decals
            == other.takes_decals && self.group == other.group
    }

    proof fn like_is_fair(self, other: Entity) {
    }
}

impl Facts for Body {
    open spec fn like(self, other: Body) -> bool {
        &&& self.entity == other.entity
        &&& stands_alike(self.transform, other.transform)
        &&& self.kind == other.kind
        &&& self.shape == other.shape
        &&& self.collider == other.collider
        &&& self.sensor == other.sensor
        &&& self.wet == other.wet
    }

    fn same(self, other: Body) -> (result: bool) {
        self.entity == other.entity && same_transform(self.transform, other.transform)
            && self.kind == other.kind && self.shape == other.shape && self.collider
            == other.collider && self.sensor == other.sensor && self.wet == other.wet
    }

    proof fn like_is_fair(self, other: Body) {
    }
}

impl Facts for Joint {
    open spec fn like(self, other: Joint) -> bool {
        self == other
    }

    fn same(self, other: Joint) -> (result: bool) {
        self == other
    }

    proof fn like_is_fair(self, other: Joint) {
    }
}

/// The settings of a world.
#[derive(Clone, Copy, Debug, PartialEq, Eq, Structural)]
pub struct Stage {
    pub clear: Triple,
    pub light: Triple,
    pub ambient: Triple,
    pub gravity: Triple,
}

/// Whether two stages say the same.
pub open spec fn stage_alike(left: Stage, right: Stage) -> bool {
    triples_alike(left.clear, right.clear) && triples_alike(left.light, right.light)
        && triples_alike(left.ambient, right.ambient) && triples_alike(left.gravity, right.gravity)
}

/// The part of a world that is put back by a step back: its settings, what
/// stands in it, and its clock.
#[derive(Debug)]
pub struct Scene {
    pub stage: Stage,
    /// What the fields of its sky and of the finished picture hold.
    pub sky: Vec<Value>,
    pub entities: Table<Entity>,
    pub bodies: Table<Body>,
    pub joints: Table<Joint>,
    /// The seconds of its clock, by their bits.
    pub time: u64,
    /// The steps of its clock.
    pub steps: u64,
}

/// What a scene is.
pub ghost struct Described {
    pub stage: Stage,
    pub sky: Seq<Said>,
    pub entities: Seq<Standing<Entity>>,
    pub bodies: Seq<Standing<Body>>,
    pub joints: Seq<Standing<Joint>>,
    pub time: u64,
    pub steps: u64,
}

/// Whether two scenes say the same but for their clocks: fractions as fractions
/// do, so that a scene with one in it that is no number is not even the same as
/// itself.
pub open spec fn same_world(left: Described, right: Described) -> bool {
    &&& stage_alike(left.stage, right.stage)
    &&& sheet_alike(left.sky, right.sky)
    &&& table_alike(left.entities, right.entities)
    &&& table_alike(left.bodies, right.bodies)
    &&& table_alike(left.joints, right.joints)
}

impl Scene {
    /// What the scene is.
    pub open spec fn view(&self) -> Described {
        Described {
            stage: self.stage,
            sky: said_all(self.sky@),
            entities: self.entities.view(),
            bodies: self.bodies.view(),
            joints: self.joints.view(),
            time: self.time,
            steps: self.steps,
        }
    }

    /// Whether the tables are as tables are, and of the sizes a world has.
    pub open spec fn wf(&self) -> bool {
        &&& self.entities.wf()
        &&& self.bodies.wf()
        &&& self.joints.wf()
        &&& self.entities.room() == MAX_ENTITIES
        &&& self.bodies.room() == MAX_BODIES
        &&& self.joints.room() == MAX_JOINTS
    }

    /// The same scene again.
    pub fn copy(&self) -> (result: Scene)
        ensures
            result.view() == self.view(),
            self.wf() ==> result.wf(),
    {
        Scene {
            stage: self.stage,
            sky: copy_sheet(&self.sky),
            entities: self.entities.copy(),
            bodies: self.bodies.copy(),
            joints: self.joints.copy(),
            time: self.time,
            steps: self.steps,
        }
    }

    /// Whether two scenes say the same but for their clocks.
    pub fn same_world(&self, other: &Scene) -> (result: bool)
        ensures
            result == same_world(self.view(), other.view()),
    {
        same_triple(self.stage.clear, other.stage.clear) && same_triple(
            self.stage.light,
            other.stage.light,
        ) && same_triple(self.stage.ambient, other.stage.ambient) && same_triple(
            self.stage.gravity,
            other.stage.gravity,
        ) && same_sheet(&self.sky, &other.sky) && self.entities.same(&other.entities)
            && self.bodies.same(&other.bodies) && self.joints.same(&other.joints)
    }
}

/// The two sides of a comparison can be swapped.
pub proof fn same_world_is_fair(left: Described, right: Described)
    ensures
        same_world(left, right) == same_world(right, left),
{
    sheet_alike_is_fair(left.sky, right.sky);
    table_alike_is_fair(left.entities, right.entities);
    table_alike_is_fair(left.bodies, right.bodies);
    table_alike_is_fair(left.joints, right.joints);
}

/// An asset by its name.
#[derive(Debug)]
pub struct Asset {
    pub name: String,
    /// Whether there is anything of it to see.
    pub drawn: bool,
    /// What the fields of it hold.
    pub sheet: Vec<Value>,
}

/// What an asset is.
pub ghost struct Known {
    pub name: Seq<char>,
    pub drawn: bool,
    pub sheet: Seq<Said>,
}

/// An asset whose fields hold nothing yet.
pub open spec fn known(name: Seq<char>, drawn: bool) -> Known {
    Known { name, drawn, sheet: Seq::empty() }
}

/// Assets by their numbers. The one numbered nought is the one nothing asks
/// for by name.
#[derive(Debug)]
pub struct Registry {
    assets: Vec<Asset>,
}

/// The number of the first asset with a name, from a number on.
pub open spec fn numbered(assets: Seq<Known>, name: Seq<char>, from: nat) -> Option<nat>
    decreases assets.len() - from,
{
    if from >= assets.len() {
        None
    } else if assets[from as int].name == name {
        Some(from)
    } else {
        numbered(assets, name, from + 1)
    }
}

/// The number an asset is found under; nought for a name nothing has.
pub open spec fn number_of(assets: Seq<Known>, name: Seq<char>) -> nat {
    match numbered(assets, name, 1) {
        Some(number) => number,
        None => 0,
    }
}

/// The number an asset gets: its name's, or the next.
pub open spec fn insert_number(assets: Seq<Known>, name: Seq<char>) -> nat {
    if number_of(assets, name) != 0 {
        number_of(assets, name)
    } else {
        assets.len()
    }
}

/// Assets with one more registered, in the place of one with its name.
pub open spec fn inserted(assets: Seq<Known>, asset: Known) -> Seq<Known> {
    if number_of(assets, asset.name) != 0 {
        assets.update(number_of(assets, asset.name) as int, asset)
    } else {
        assets.push(asset)
    }
}

/// An asset registered is found under its name.
pub proof fn inserted_is_found(assets: Seq<Known>, asset: Known)
    requires
        assets.len() > 0,
    ensures
        number_of(inserted(assets, asset), asset.name) == insert_number(assets, asset.name),
        inserted(assets, asset)[insert_number(assets, asset.name) as int] == asset,
{
    let after = inserted(assets, asset);
    let number = insert_number(assets, asset.name);
    numbered_is_first(assets, asset.name, 1);
    numbered_is_first(after, asset.name, 1);
    assert(after[number as int].name == asset.name);
    match numbered(after, asset.name, 1) {
        None => {
            assert(after[number as int].name != asset.name);
        },
        Some(found) => {
            if found < number {
                assert(after[found as int] == assets[found as int]);
            }
        },
    }
}

/// A registry nothing was registered in: only the number that stands for
/// nothing.
pub open spec fn nothing_known() -> Seq<Known> {
    seq![known(Seq::empty(), false)]
}

/// The one mesh that every world knows: the cube.
pub open spec fn the_cube_known() -> Seq<Known> {
    nothing_known().push(known("cube"@, true))
}

/// A stage that nobody has lit.
pub open spec fn bare_stage() -> Stage {
    let origin = Triple { x: 0, y: 0, z: 0 };
    Stage { clear: origin, light: origin, ambient: origin, gravity: origin }
}

/// What the asset of a number is called; nothing for a number without one.
pub open spec fn asset_name(assets: Seq<Known>, id: u32) -> Seq<char> {
    if id < assets.len() {
        assets[id as int].name
    } else {
        Seq::empty()
    }
}

/// What the fields of the asset of a number hold; nothing for a number without
/// one.
pub open spec fn asset_sheet(assets: Seq<Known>, id: u32) -> Seq<Said> {
    if id < assets.len() {
        assets[id as int].sheet
    } else {
        Seq::empty()
    }
}

/// Assets with what the fields of one of them hold written.
pub open spec fn asset_put(assets: Seq<Known>, id: u32, sheet: Seq<Said>) -> Seq<Known> {
    if 0 < id < assets.len() {
        assets.update(id as int, Known { sheet, ..assets[id as int] })
    } else {
        assets
    }
}

/// The first asset with a name has it, and none before it has.
pub proof fn numbered_is_first(assets: Seq<Known>, name: Seq<char>, from: nat)
    ensures
        match numbered(assets, name, from) {
            None => forall|i: int| from <= i < assets.len() ==> (#[trigger] assets[i]).name != name,
            Some(number) => {
                &&& from <= number < assets.len()
                &&& assets[number as int].name == name
                &&& forall|i: int| from <= i < number ==> (#[trigger] assets[i]).name != name
            },
        },
    decreases assets.len() - from,
{
    if from < assets.len() && assets[from as int].name != name {
        numbered_is_first(assets, name, from + 1);
    }
}

impl Registry {
    /// What the assets are.
    pub closed spec fn view(&self) -> Seq<Known> {
        Seq::new(
            self.assets@.len(),
            |i: int|
                Known {
                    name: self.assets@[i].name@,
                    drawn: self.assets@[i].drawn,
                    sheet: said_all(self.assets@[i].sheet@),
                },
        )
    }

    /// Whether the registry is as registries are.
    pub open spec fn wf(&self) -> bool {
        &&& 1 <= self.view().len() <= u32::MAX
        &&& self.view()[0] == known(Seq::empty(), false)
    }

    /// A registry with nothing in it that has a name.
    pub fn new() -> (result: Registry)
        ensures
            result.wf(),
            result.view() == nothing_known(),
    {
        let mut assets: Vec<Asset> = Vec::new();
        let sheet: Vec<Value> = Vec::new();
        assert(said_all(sheet@) =~= Seq::empty());
        assets.push(Asset { name: String::new(), drawn: false, sheet });
        let result: Registry = Registry { assets };
        assert(result.view() =~= seq![known(Seq::empty(), false)]);
        result
    }

    /// Registers an asset under a name, in the place of one that has it
    /// already. Its number.
    pub fn insert(&mut self, name: &str, drawn: bool) -> (result: u32)
        requires
            old(self).wf(),
            old(self).view().len() < u32::MAX,
        ensures
            final(self).wf(),
            result == insert_number(old(self).view(), name@),
            0 < result < final(self).view().len(),
            final(self).view() == inserted(old(self).view(), known(name@, drawn)),
            final(self).view().len() <= old(self).view().len() + 1,
    {
        let ghost was = self.view();
        let found: u32 = self.find(name);
        proof {
            numbered_is_first(was, name@, 1);
        }
        let sheet: Vec<Value> = Vec::new();
        assert(said_all(sheet@) =~= Seq::empty());
        if found != 0 {
            let at: usize = found as usize;
            self.assets[at].drawn = drawn;
            self.assets[at].sheet = sheet;
            assert(self.view() =~= was.update(at as int, known(name@, drawn)));
            return found;
        }
        let at: usize = self.assets.len();
        self.assets.push(Asset { name: name.to_owned(), drawn, sheet });
        assert(self.view() =~= was.push(known(name@, drawn)));
        at as u32
    }

    /// How many numbers there are, the one that stands for nothing among them.
    pub fn len(&self) -> (result: usize)
        ensures
            result == self.view().len(),
    {
        self.assets.len()
    }

    /// What the asset of a number is called.
    pub fn name(&self, id: u32) -> (result: &str)
        ensures
            result@ == asset_name(self.view(), id),
    {
        proof {
            reveal_strlit("");
            assert(""@ =~= Seq::empty());
        }
        let at: usize = id as usize;
        if at < self.assets.len() {
            self.assets[at].name.as_str()
        } else {
            ""
        }
    }

    /// What the fields of the asset of a number hold.
    pub fn sheet(&self, id: u32) -> (result: Vec<Value>)
        ensures
            said_all(result@) == asset_sheet(self.view(), id),
    {
        let at: usize = id as usize;
        if at < self.assets.len() {
            copy_sheet(&self.assets[at].sheet)
        } else {
            let none: Vec<Value> = Vec::new();
            assert(said_all(none@) =~= Seq::empty());
            none
        }
    }

    /// Writes what the fields of the asset of a number hold, but for the
    /// number that stands for nothing.
    pub fn set_sheet(&mut self, id: u32, sheet: Vec<Value>)
        requires
            old(self).wf(),
        ensures
            final(self).wf(),
            final(self).view() == asset_put(old(self).view(), id, said_all(sheet@)),
            final(self).view().len() == old(self).view().len(),
    {
        let ghost was = self.view();
        let ghost said = said_all(sheet@);
        let at: usize = id as usize;
        if 0 < at && at < self.assets.len() {
            self.assets[at].sheet = sheet;
            assert(self.view() =~= asset_put(was, id, said));
        }
    }

    /// Whether a number has an asset.
    pub fn held(&self, id: u32) -> (result: bool)
        ensures
            result == (id < self.view().len()),
    {
        (id as usize) < self.assets.len()
    }

    /// Whether there is anything to see of the asset of a number.
    pub fn drawn(&self, id: u32) -> (result: bool)
        ensures
            result == (id < self.view().len() && self.view()[id as int].drawn),
    {
        let at: usize = id as usize;
        at < self.assets.len() && self.assets[at].drawn
    }

    /// The number an asset is found under; nought for a name nothing has.
    pub fn find(&self, name: &str) -> (result: u32)
        requires
            self.wf(),
        ensures
            result == number_of(self.view(), name@),
            result < self.view().len(),
    {
        let ghost all = self.view();
        let mut i: usize = 1;
        while i < self.assets.len()
            invariant
                1 <= i <= self.assets@.len(),
                all == self.view(),
                all.len() <= u32::MAX,
                numbered(all, name@, 1) == numbered(all, name@, i as nat),
            decreases self.assets@.len() - i,
        {
            assert(all[i as int].name == self.assets@[i as int].name@);
            if same(self.assets[i].name.as_str(), name) {
                return i as u32;
            }
            i = i + 1;
        }
        0
    }
}

/// One piece of a model.
#[derive(Debug)]
pub struct Placement {
    pub name: String,
    pub mesh: u32,
    pub material: u32,
    pub transform: Transform,
    /// What the piece shines.
    pub light: Light,
}

/// What a piece of a model is.
pub ghost struct Piece {
    pub name: Seq<char>,
    pub mesh: u32,
    pub material: u32,
    pub transform: Transform,
    pub light: Light,
}

impl Placement {
    /// What the piece is.
    pub open spec fn view(&self) -> Piece {
        Piece {
            name: self.name@,
            mesh: self.mesh,
            material: self.material,
            transform: self.transform,
            light: self.light,
        }
    }
}

/// What several pieces are.
pub open spec fn pieces_view(placements: Seq<Placement>) -> Seq<Piece> {
    Seq::new(placements.len(), |i: int| placements[i].view())
}

/// A world, as a panel works on it.
#[derive(Debug)]
pub struct World {
    pub scene: Scene,
    /// Whether it is being edited rather than played.
    pub editing: bool,
    pub meshes: Registry,
    pub materials: Registry,
    pub textures: Registry,
    pub models: Registry,
    /// The pieces of each model, by its number.
    pub pieces: Vec<Vec<Placement>>,
}

/// What a world is.
pub ghost struct Worldly {
    pub scene: Described,
    pub editing: bool,
    pub meshes: Seq<Known>,
    pub materials: Seq<Known>,
    pub textures: Seq<Known>,
    pub models: Seq<Known>,
    pub pieces: Seq<Seq<Piece>>,
}

/// Nowhere in particular: at the origin, unturned, a unit big.
pub open spec fn identity() -> Transform {
    Transform {
        position: Triple { x: 0, y: 0, z: 0 },
        rotation: Quad { x: 0, y: 0, z: 0, w: 0x3f80_0000 },
        scale: Triple { x: 0x3f80_0000, y: 0x3f80_0000, z: 0x3f80_0000 },
    }
}

impl Transform {
    /// Nowhere in particular.
    pub fn unmoved() -> (result: Transform)
        ensures
            result == identity(),
    {
        Transform {
            position: Triple { x: 0, y: 0, z: 0 },
            rotation: Quad { x: 0, y: 0, z: 0, w: 0x3f80_0000 },
            scale: Triple { x: 0x3f80_0000, y: 0x3f80_0000, z: 0x3f80_0000 },
        }
    }

    /// Unturned and a unit big, somewhere.
    pub fn at(position: Triple) -> (result: Transform)
        ensures
            result == (Transform { position, ..identity() }),
    {
        Transform { position, ..Transform::unmoved() }
    }
}

/// An entity that is nothing in particular.
pub open spec fn plain_entity(transform: Transform) -> Entity {
    Entity {
        parent: Handle::nothing(),
        transform,
        hidden: false,
        mesh: 0,
        material: 0,
        light: Light { kind: LightKind::Dark, range: 0, outer: 0 },
        emitter: 0,
        terrain: 0,
        decal: 0,
        takes_decals: true,
        group: false,
    }
}

impl Entity {
    /// An entity that is nothing in particular.
    pub fn plain(transform: Transform) -> (result: Entity)
        ensures
            result == plain_entity(transform),
    {
        Entity {
            parent: Handle::none(),
            transform,
            hidden: false,
            mesh: 0,
            material: 0,
            light: Light { kind: LightKind::Dark, range: 0, outer: 0 },
            emitter: 0,
            terrain: 0,
            decal: 0,
            takes_decals: true,
            group: false,
        }
    }
}

impl World {
    /// What the world is.
    pub open spec fn view(&self) -> Worldly {
        Worldly {
            scene: self.scene.view(),
            editing: self.editing,
            meshes: self.meshes.view(),
            materials: self.materials.view(),
            textures: self.textures.view(),
            models: self.models.view(),
            pieces: Seq::new(self.pieces@.len(), |i: int| pieces_view(self.pieces@[i]@)),
        }
    }

    /// Whether the world is as worlds are.
    pub open spec fn wf(&self) -> bool {
        &&& self.scene.wf()
        &&& self.meshes.wf()
        &&& self.materials.wf()
        &&& self.textures.wf()
        &&& self.models.wf()
        &&& self.pieces@.len() == self.models.view().len()
    }

    /// A world with nothing in it, that knows the cube.
    pub fn new() -> (result: World)
        ensures
            result.wf(),
            result.view() == (Worldly {
                scene: Described {
                    stage: bare_stage(),
                    sky: Seq::empty(),
                    entities: Seq::empty(),
                    bodies: Seq::empty(),
                    joints: Seq::empty(),
                    time: 0,
                    steps: 0,
                },
                editing: false,
                meshes: the_cube_known(),
                materials: nothing_known(),
                textures: nothing_known(),
                models: nothing_known(),
                pieces: seq![Seq::empty()],
            }),
    {
        let origin: Triple = Triple { x: 0, y: 0, z: 0 };
        let sky: Vec<Value> = Vec::new();
        assert(said_all(sky@) =~= Seq::empty());
        let mut pieces: Vec<Vec<Placement>> = Vec::new();
        pieces.push(Vec::new());
        let mut meshes: Registry = Registry::new();
        proof {
            reveal_strlit("cube");
            numbered_is_first(nothing_known(), "cube"@, 1);
        }
        let _ = meshes.insert("cube", true);
        let world: World = World {
            scene: Scene {
                stage: Stage { clear: origin, light: origin, ambient: origin, gravity: origin },
                sky,
                entities: Table::new(MAX_ENTITIES),
                bodies: Table::new(MAX_BODIES),
                joints: Table::new(MAX_JOINTS),
                time: 0,
                steps: 0,
            },
            editing: false,
            meshes,
            materials: Registry::new(),
            textures: Registry::new(),
            models: Registry::new(),
            pieces,
        };
        assert(pieces_view(world.pieces@[0]@) =~= Seq::empty());
        assert(world.view().pieces =~= seq![Seq::empty()]);
        world
    }

    /// Puts a scene back, table for table.
    pub fn restore(&mut self, scene: &Scene)
        requires
            old(self).wf(),
            scene.wf(),
        ensures
            final(self).wf(),
            final(self).view() == (Worldly { scene: scene.view(), ..old(self).view() }),
    {
        self.scene = scene.copy();
    }

    /// Registers a model with its pieces, in the place of one that has its
    /// name already. Its number.
    pub fn insert_model(&mut self, name: &str, placements: Vec<Placement>) -> (result: u32)
        requires
            old(self).wf(),
            old(self).models.view().len() < u32::MAX,
        ensures
            final(self).wf(),
            result == insert_number(old(self).view().models, name@),
            final(self).view() == (Worldly {
                models: inserted(old(self).view().models, known(name@, true)),
                pieces: if result < old(self).view().pieces.len() {
                    old(self).view().pieces.update(result as int, pieces_view(placements@))
                } else {
                    old(self).view().pieces.push(pieces_view(placements@))
                },
                ..old(self).view()
            }),
    {
        let ghost was = self.view().pieces;
        proof {
            numbered_is_first(self.view().models, name@, 1);
        }
        let id: u32 = self.models.insert(name, true);
        let ghost more = pieces_view(placements@);
        let at: usize = id as usize;
        if at < self.pieces.len() {
            self.pieces.set(at, placements);
            assert(self.view().pieces =~= was.update(at as int, more));
        } else {
            self.pieces.push(placements);
            assert(self.view().pieces =~= was.push(more));
        }
        id
    }
}

/// A kind is what the word in its own place says, and no two kinds share a place
/// or a word.
pub proof fn kinds_have_their_own_words(
    light: LightKind,
    lit: LightKind,
    body: BodyKind,
    moved: BodyKind,
    shape: ShapeKind,
    shaped: ShapeKind,
    joint: JointKind,
    held: JointKind,
)
    ensures
        LightKind::told(light.number()) == light,
        BodyKind::told(body.number()) == body,
        ShapeKind::told(shape.number()) == shape,
        JointKind::told(joint.number()) == joint,
        light.said() == lit.said() ==> light == lit,
        body.said() == moved.said() ==> body == moved,
        shape.said() == shaped.said() ==> shape == shaped,
        joint.said() == held.said() ==> joint == held,
{
    reveal_strlit("none");
    reveal_strlit("point");
    reveal_strlit("spot");
    reveal_strlit("static");
    reveal_strlit("kinematic");
    reveal_strlit("dynamic");
    reveal_strlit("box");
    reveal_strlit("sphere");
    reveal_strlit("mesh");
    reveal_strlit("weld");
    reveal_strlit("axis");
    reveal_strlit("rope");
    assert("none"@[0] == 'n' && "point"@[0] == 'p' && "spot"@[0] == 's');
    assert("static"@[0] == 's' && "kinematic"@[0] == 'k' && "dynamic"@[0] == 'd');
    assert("box"@[0] == 'b' && "sphere"@[0] == 's' && "mesh"@[0] == 'm');
    assert("weld"@[0] == 'w' && "axis"@[0] == 'a' && "rope"@[0] == 'r');
}

/// Things that say the same agree in everything that is no fraction, and stand
/// where fractions say the same: so that whatever a press changes of one is seen.
pub proof fn what_says_the_same_agrees(
    one: Entity,
    other: Entity,
    body: Body,
    solid: Body,
    joint: Joint,
    tie: Joint,
)
    ensures
        one.like(other) ==> one.parent == other.parent && one.hidden == other.hidden && one.mesh
            == other.mesh && one.material == other.material && one.light.kind == other.light.kind
            && one.emitter == other.emitter && one.terrain == other.terrain && one.decal
            == other.decal && one.takes_decals == other.takes_decals && one.group == other.group,
        one.like(other) ==> triples_alike(one.transform.position, other.transform.position)
            && quads_alike(one.transform.rotation, other.transform.rotation) && triples_alike(
            one.transform.scale,
            other.transform.scale,
        ) && alike(one.light.range, other.light.range) && alike(one.light.outer, other.light.outer),
        body.like(solid) ==> body.entity == solid.entity && body.kind == solid.kind && body.shape
            == solid.shape && body.collider == solid.collider && body.sensor == solid.sensor
            && body.wet == solid.wet && triples_alike(
            body.transform.position,
            solid.transform.position,
        ) && quads_alike(body.transform.rotation, solid.transform.rotation) && triples_alike(
            body.transform.scale,
            solid.transform.scale,
        ),
        joint.like(tie) ==> joint.kind == tie.kind && joint.first == tie.first && joint.second
            == tie.second,
        one == other && stands_alike(one.transform, one.transform) && alike(
            one.light.range,
            one.light.range,
        ) && alike(one.light.outer, one.light.outer) ==> one.like(other),
{
}

/// Worlds that say the same have the same things in the same places under the
/// same names, and are lit the same; a thing that is in one and not in the other,
/// or is called otherwise, or holds another fact, makes them differ.
pub proof fn worlds_that_say_the_same_agree(left: Described, right: Described, id: Handle)
    requires
        same_world(left, right),
    ensures
        crate::table::lives(left.entities, id) == crate::table::lives(right.entities, id),
        crate::table::lives(left.bodies, id) == crate::table::lives(right.bodies, id),
        crate::table::lives(left.joints, id) == crate::table::lives(right.joints, id),
        crate::table::name_at(left.entities, id) == crate::table::name_at(right.entities, id),
        crate::table::name_at(left.bodies, id) == crate::table::name_at(right.bodies, id),
        crate::table::name_at(left.joints, id) == crate::table::name_at(right.joints, id),
        crate::table::lives(left.entities, id) ==> crate::table::thing_at(
            left.entities,
            id,
        ).facts.like(crate::table::thing_at(right.entities, id).facts),
        crate::table::lives(left.bodies, id) ==> crate::table::thing_at(
            left.bodies,
            id,
        ).facts.like(crate::table::thing_at(right.bodies, id).facts),
        crate::table::lives(left.joints, id) ==> crate::table::thing_at(
            left.joints,
            id,
        ).facts.like(crate::table::thing_at(right.joints, id).facts),
        triples_alike(left.stage.clear, right.stage.clear),
        triples_alike(left.stage.light, right.stage.light),
        triples_alike(left.stage.ambient, right.stage.ambient),
        triples_alike(left.stage.gravity, right.stage.gravity),
        left.sky.len() == right.sky.len(),
{
    if id.slot < left.entities.len() {
        assert(crate::table::standing_alike(
            left.entities[id.slot as int],
            right.entities[id.slot as int],
        ));
    }
    if id.slot < left.bodies.len() {
        assert(crate::table::standing_alike(
            left.bodies[id.slot as int],
            right.bodies[id.slot as int],
        ));
    }
    if id.slot < left.joints.len() {
        assert(crate::table::standing_alike(
            left.joints[id.slot as int],
            right.joints[id.slot as int],
        ));
    }
}

/// Registering an asset changes the one of its name or adds one at the end, and
/// every other keeps its number and what it is.
pub proof fn registering_touches_one(assets: Seq<Known>, asset: Known, id: int)
    requires
        assets.len() > 0,
        0 <= id < assets.len(),
    ensures
        ({
            let after = inserted(assets, asset);
            let number = insert_number(assets, asset.name);
            &&& id != number ==> after[id] == assets[id]
            &&& number > 0
            &&& after.len() == assets.len() || after.len() == assets.len() + 1
            &&& after.len() == assets.len() <==> exists|i: int|
                1 <= i < assets.len() && (#[trigger] assets[i]).name == asset.name
        }),
{
    numbered_is_first(assets, asset.name, 1);
}

/// Each kind of light is called how it throws, in the place its word has in the list.
pub proof fn lights_are_called_what_they_throw(one: LightKind)
    ensures
        one == LightKind::Dark ==> one.said() == "none"@,
        one == LightKind::Point ==> one.said() == "point"@,
        one == LightKind::Spot ==> one.said() == "spot"@,
        one == LightKind::Dark ==> one.number() == 0,
        one == LightKind::Point ==> one.number() == 1,
        one == LightKind::Spot ==> one.number() == 2,
{
}

/// Each kind of body is called how it moves, in the place its word has in the list.
pub proof fn bodies_are_called_how_they_move(one: BodyKind)
    ensures
        one == BodyKind::Static ==> one.said() == "static"@,
        one == BodyKind::Kinematic ==> one.said() == "kinematic"@,
        one == BodyKind::Dynamic ==> one.said() == "dynamic"@,
        one == BodyKind::Static ==> one.number() == 0,
        one == BodyKind::Kinematic ==> one.number() == 1,
        one == BodyKind::Dynamic ==> one.number() == 2,
{
}

/// Each shape is called what it is, in the place its word has in the list.
pub proof fn shapes_are_called_what_they_are(one: ShapeKind)
    ensures
        one == ShapeKind::Box ==> one.said() == "box"@,
        one == ShapeKind::Sphere ==> one.said() == "sphere"@,
        one == ShapeKind::Mesh ==> one.said() == "mesh"@,
        one == ShapeKind::Box ==> one.number() == 0,
        one == ShapeKind::Sphere ==> one.number() == 1,
        one == ShapeKind::Mesh ==> one.number() == 2,
{
}

/// Each kind of joint is called how it holds, in the place its word has in the list.
pub proof fn joints_are_called_how_they_hold(one: JointKind)
    ensures
        one == JointKind::Weld ==> one.said() == "weld"@,
        one == JointKind::Axis ==> one.said() == "axis"@,
        one == JointKind::Rope ==> one.said() == "rope"@,
        one == JointKind::Weld ==> one.number() == 0,
        one == JointKind::Axis ==> one.number() == 1,
        one == JointKind::Rope ==> one.number() == 2,
{
}

/// Standing nowhere in particular is at the origin, unturned and a unit big; and
/// an entity that is nothing in particular is on its own, shown, draws, shines,
/// throws and paints nothing, is painted and is no group.
pub proof fn nothing_in_particular(standing: Transform)
    ensures
        identity().position == (Triple { x: 0, y: 0, z: 0 }),
        identity().rotation == (Quad { x: 0, y: 0, z: 0, w: 0x3f80_0000 }),
        identity().scale == (Triple { x: 0x3f80_0000, y: 0x3f80_0000, z: 0x3f80_0000 }),
        ({
            let plain = plain_entity(standing);
            &&& plain.transform == standing
            &&& !plain.parent.some()
            &&& !plain.hidden
            &&& plain.mesh == 0 && plain.material == 0
            &&& plain.light.kind == LightKind::Dark && !plain.light.lit()
            &&& plain.emitter == 0 && plain.terrain == 0 && plain.decal == 0
            &&& plain.takes_decals
            &&& !plain.group
        }),
{
}

/// A lamp throws light exactly where it is of some kind and reaches anywhere.
pub proof fn a_lamp_is_lit_by_its_reach(light: Light)
    ensures
        light.kind == LightKind::Dark ==> !light.lit(),
        !less(0, light.range) ==> !light.lit(),
        light.kind != LightKind::Dark && less(0, light.range) ==> light.lit(),
{
}

} // verus!
