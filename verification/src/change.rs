//! Something that was pressed on a panel: a value rather than a call, so that
//! a panel is a function from state to intent and the world is written in one
//! place.

use vstd::prelude::*;
use crate::bake::Walls;
use crate::catalog::Kind;
use crate::gizmo::Tool;
use crate::select::Pick;
use crate::world::{EntityId, Transform};

verus! {

/// Something that was pressed on a panel.
#[derive(Debug)]
pub enum Change {
    /// Select something and nothing else, or nothing.
    Select(Pick),
    /// Add something to the selection, or take it out.
    Toggle(Pick),
    /// Remove everything selected.
    Delete,
    /// Make a copy of everything selected, and select the copies.
    Duplicate,
    /// Put the keyboard in the primary's name field.
    Rename,
    /// Hang an entity off another, or stand it on its own. `inside` is where
    /// it stands seen from there.
    Hang { child: EntityId, parent: EntityId, inside: Transform },
    /// Put the entities selected into a new group.
    Group,
    /// Take the groups selected apart.
    Ungroup,
    /// Select everything hanging off an entity, and not the entity.
    Inside(EntityId),
    /// Hide an entity and everything hanging off it, or show it again.
    Hide { entity: EntityId, hidden: bool },
    /// Switch the gizmo to one of its three things.
    Tool(Tool),
    /// Put the brush out, or away.
    Brush(bool),
    /// Make the brush this wide and this hard, each by its bits.
    Stroke { radius: u32, strength: u32 },
    /// Edit the world, or play it.
    Edit(bool),
    /// Write the world out as a scene source under this name.
    Write(String),
    /// Take a step back.
    Undo,
    /// Take a step forward again.
    Redo,
    /// Move to a scene, opening it if it is not open.
    Open(String),
    /// Open a scene of the last run again, without moving to it.
    Reopen(String),
    /// Move to an open scene, by its place in the row.
    Show(usize),
    /// Shut an open scene, by its place in the row.
    Shut(usize),
    /// Show an asset in the inspector, by the name it registers under.
    Inspect(String),
    /// Rename an asset's source: its name as it stands, and what the last
    /// part of it is to become.
    RenameAsset(String, String),
    /// Open an asset's source in whatever editor this person uses.
    Code(String),
    /// Put a body of water where it is being looked, in a material.
    Water { standing: Transform, material: u32 },
    /// Put a block where it is being looked.
    Block(Transform),
    /// Put a decal where it is being looked.
    Decal(Transform),
    /// Turn the selected blocks, whose faces these are, into one mesh per
    /// material, under a name.
    Bake(String, Vec<Walls>),
    /// Work the world's still light out, under a name.
    Light(String),
    /// Put an asset into the world, where it was dropped.
    Drop { name: String, kind: Kind, standing: Transform },
}

/// What was pressed.
pub ghost enum Pressed {
    Select(Pick),
    Toggle(Pick),
    Delete,
    Duplicate,
    Rename,
    Hang { child: EntityId, parent: EntityId, inside: Transform },
    Group,
    Ungroup,
    Inside(EntityId),
    Hide { entity: EntityId, hidden: bool },
    Tool(Tool),
    Brush(bool),
    Stroke { radius: u32, strength: u32 },
    Edit(bool),
    Write(Seq<char>),
    Undo,
    Redo,
    Open(Seq<char>),
    Reopen(Seq<char>),
    Show(nat),
    Shut(nat),
    Inspect(Seq<char>),
    RenameAsset(Seq<char>, Seq<char>),
    Code(Seq<char>),
    Water { standing: Transform, material: u32 },
    Block(Transform),
    Decal(Transform),
    Bake(Seq<char>, Seq<Walls>),
    Light(Seq<char>),
    Drop { name: Seq<char>, kind: Kind, standing: Transform },
}

impl Change {
    /// What was pressed.
    pub open spec fn view(&self) -> Pressed {
        match self {
            Change::Select(pick) => Pressed::Select(*pick),
            Change::Toggle(pick) => Pressed::Toggle(*pick),
            Change::Delete => Pressed::Delete,
            Change::Duplicate => Pressed::Duplicate,
            Change::Rename => Pressed::Rename,
            Change::Hang { child, parent, inside } => Pressed::Hang {
                child: *child,
                parent: *parent,
                inside: *inside,
            },
            Change::Group => Pressed::Group,
            Change::Ungroup => Pressed::Ungroup,
            Change::Inside(entity) => Pressed::Inside(*entity),
            Change::Hide { entity, hidden } => Pressed::Hide { entity: *entity, hidden: *hidden },
            Change::Tool(tool) => Pressed::Tool(*tool),
            Change::Brush(out) => Pressed::Brush(*out),
            Change::Stroke { radius, strength } => Pressed::Stroke {
                radius: *radius,
                strength: *strength,
            },
            Change::Edit(editing) => Pressed::Edit(*editing),
            Change::Write(name) => Pressed::Write(name@),
            Change::Undo => Pressed::Undo,
            Change::Redo => Pressed::Redo,
            Change::Open(name) => Pressed::Open(name@),
            Change::Reopen(name) => Pressed::Reopen(name@),
            Change::Show(which) => Pressed::Show(*which as nat),
            Change::Shut(which) => Pressed::Shut(*which as nat),
            Change::Inspect(name) => Pressed::Inspect(name@),
            Change::RenameAsset(name, to) => Pressed::RenameAsset(name@, to@),
            Change::Code(name) => Pressed::Code(name@),
            Change::Water { standing, material } => Pressed::Water {
                standing: *standing,
                material: *material,
            },
            Change::Block(standing) => Pressed::Block(*standing),
            Change::Decal(standing) => Pressed::Decal(*standing),
            Change::Bake(name, walls) => Pressed::Bake(name@, walls@),
            Change::Light(name) => Pressed::Light(name@),
            Change::Drop { name, kind, standing } => Pressed::Drop {
                name: name@,
                kind: *kind,
                standing: *standing,
            },
        }
    }
}

/// What several presses were.
pub open spec fn presses(changes: Seq<Change>) -> Seq<Pressed> {
    Seq::new(changes.len(), |i: int| changes[i].view())
}

} // verus!
