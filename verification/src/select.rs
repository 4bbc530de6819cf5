//! What a panel is pointing at, and what it does to what it points at.
//!
//! A handle is the identity and a name is the way back to it: a selection
//! holds both, so that it finds its things again in a world that was
//! replaced around them. An entity and the body driving it are one thing to
//! a person and two tables to the engine, so moving either moves both.

use vstd::prelude::*;
use vstd::string::*;
use crate::table::{first_called, lives, living, living_resolves, name_at, Handle, Standing};
use crate::world::{
    asset_name, number_of, Body, BodyId, Entity, EntityId, Joint, JointId, World, Worldly,
};

verus! {

/// One thing a panel can point at, whichever table it lives in.
#[derive(Clone, Copy, Debug, PartialEq, Eq, Structural)]
pub enum Pick {
    /// Nothing is selected.
    Nothing,
    /// An entity.
    Entity(EntityId),
    /// A body.
    Body(BodyId),
    /// A joint.
    Joint(JointId),
    /// A material, which is an asset rather than a thing standing anywhere.
    Material(u32),
    /// A model, which is an asset like a material.
    Model(u32),
}

impl Default for Pick {
    fn default() -> (result: Pick)
        ensures
            result == Pick::Nothing,
    {
        Pick::Nothing
    }
}

/// Whether the world holds what a pick names.
pub open spec fn pick_lives(world: Worldly, pick: Pick) -> bool {
    match pick {
        Pick::Nothing => false,
        Pick::Entity(id) => lives(world.scene.entities, id),
        Pick::Body(id) => lives(world.scene.bodies, id),
        Pick::Joint(id) => lives(world.scene.joints, id),
        Pick::Material(id) => id < world.materials.len(),
        Pick::Model(id) => id < world.models.len(),
    }
}

/// What a pick is called, or nothing.
pub open spec fn pick_name(world: Worldly, pick: Pick) -> Seq<char> {
    match pick {
        Pick::Nothing => Seq::empty(),
        Pick::Entity(id) => name_at(world.scene.entities, id),
        Pick::Body(id) => name_at(world.scene.bodies, id),
        Pick::Joint(id) => name_at(world.scene.joints, id),
        Pick::Material(id) => asset_name(world.materials, id),
        Pick::Model(id) => asset_name(world.models, id),
    }
}

impl Pick {
    /// Whether the world still holds what this names.
    pub fn alive(self, world: &World) -> (result: bool)
        ensures
            result == pick_lives(world.view(), self),
    {
        match self {
            Pick::Nothing => false,
            Pick::Entity(id) => world.scene.entities.alive(id),
            Pick::Body(id) => world.scene.bodies.alive(id),
            Pick::Joint(id) => world.scene.joints.alive(id),
            Pick::Material(id) => world.materials.held(id),
            Pick::Model(id) => world.models.held(id),
        }
    }

    /// What it is called, or nothing.
    pub fn name(self, world: &World) -> (result: &str)
        ensures
            result@ == pick_name(world.view(), self),
    {
        proof {
            reveal_strlit("");
            assert(""@ =~= Seq::empty());
        }
        match self {
            Pick::Nothing => "",
            Pick::Entity(id) => world.scene.entities.name(id),
            Pick::Body(id) => world.scene.bodies.name(id),
            Pick::Joint(id) => world.scene.joints.name(id),
            Pick::Material(id) => world.materials.name(id),
            Pick::Model(id) => world.models.name(id),
        }
    }
}

/// Whatever now answers to a name, in the table a pick came from: the first
/// that does, and nothing for a name that is none.
pub open spec fn found_again(world: Worldly, was: Pick, name: Seq<char>) -> Pick {
    if name.len() == 0 {
        Pick::Nothing
    } else {
        match was {
            Pick::Nothing => Pick::Nothing,
            Pick::Entity(_) => {
                let found = first_called(
                    world.scene.entities,
                    living(world.scene.entities),
                    name,
                );
                if found.some() {
                    Pick::Entity(found)
                } else {
                    Pick::Nothing
                }
            },
            Pick::Body(_) => {
                let found = first_called(world.scene.bodies, living(world.scene.bodies), name);
                if found.some() {
                    Pick::Body(found)
                } else {
                    Pick::Nothing
                }
            },
            Pick::Joint(_) => {
                let found = first_called(world.scene.joints, living(world.scene.joints), name);
                if found.some() {
                    Pick::Joint(found)
                } else {
                    Pick::Nothing
                }
            },
            Pick::Material(_) => {
                let found = number_of(world.materials, name);
                if found != 0 {
                    Pick::Material(found as u32)
                } else {
                    Pick::Nothing
                }
            },
            Pick::Model(_) => {
                let found = number_of(world.models, name);
                if found != 0 {
                    Pick::Model(found as u32)
                } else {
                    Pick::Nothing
                }
            },
        }
    }
}

/// Whatever now answers to a name, in the table a pick came from.
pub fn again(world: &World, was: Pick, name: &str) -> (result: Pick)
    requires
        world.wf(),
    ensures
        result == found_again(world.view(), was, name@),
{
    if name.is_empty() {
        return Pick::Nothing;
    }
    match was {
        Pick::Nothing => Pick::Nothing,
        Pick::Entity(_) => {
            let found: EntityId = world.scene.entities.find(name);
            if found.is_some() {
                Pick::Entity(found)
            } else {
                Pick::Nothing
            }
        },
        Pick::Body(_) => {
            let found: BodyId = world.scene.bodies.find(name);
            if found.is_some() {
                Pick::Body(found)
            } else {
                Pick::Nothing
            }
        },
        Pick::Joint(_) => {
            let found: JointId = world.scene.joints.find(name);
            if found.is_some() {
                Pick::Joint(found)
            } else {
                Pick::Nothing
            }
        },
        Pick::Material(_) => {
            let found: u32 = world.materials.find(name);
            if found != 0 {
                Pick::Material(found)
            } else {
                Pick::Nothing
            }
        },
        Pick::Model(_) => {
            let found: u32 = world.models.find(name);
            if found != 0 {
                Pick::Model(found)
            } else {
                Pick::Nothing
            }
        },
    }
}

/// What is found by a name is alive and has that name.
pub proof fn found_again_answers(world: World, was: Pick, name: Seq<char>)
    requires
        world.wf(),
    ensures
        found_again(world.view(), was, name) != Pick::Nothing ==> pick_lives(
            world.view(),
            found_again(world.view(), was, name),
        ) && pick_name(world.view(), found_again(world.view(), was, name)) == name,
{
    let scene = world.view().scene;
    living_resolves(scene.entities);
    living_resolves(scene.bodies);
    living_resolves(scene.joints);
    called_is_listed(scene.entities, living(scene.entities), name);
    called_is_listed(scene.bodies, living(scene.bodies), name);
    called_is_listed(scene.joints, living(scene.joints), name);
    crate::world::numbered_is_first(world.view().materials, name, 1);
    crate::world::numbered_is_first(world.view().models, name, 1);
}

/// The first of several handles with a name is one of them and has it.
proof fn called_is_listed<F>(table: Seq<Standing<F>>, ids: Seq<Handle>, name: Seq<char>)
    ensures
        first_called(table, ids, name).some() ==> ids.contains(first_called(table, ids, name))
            && name_at(table, first_called(table, ids, name)) == name,
    decreases ids.len(),
{
    if ids.len() > 0 {
        if name_at(table, ids[0]) == name {
            assert(ids.contains(ids[0]));
        } else {
            let less = ids.drop_first();
            called_is_listed(table, less, name);
            let found = first_called(table, less, name);
            if found.some() {
                let k = choose|k: int| 0 <= k < less.len() && less[k] == found;
                assert(ids[k + 1] == found);
            }
        }
    }
}

/// What the panels are pointing at: one thing or several, each with the name
/// it answered to when it was picked. The last one picked is the primary.
#[derive(Debug)]
pub struct Selection {
    /// Everything selected, in the order it was picked, the primary last.
    held: Vec<(Pick, String)>,
}

/// What is selected, each thing with its name.
pub type Selected = Seq<(Pick, Seq<char>)>;

/// The primary: the last thing picked, or nothing.
pub open spec fn primary(held: Selected) -> Pick {
    if held.len() == 0 {
        Pick::Nothing
    } else {
        held.last().0
    }
}

/// Where a thing is among the selected, if it is.
pub open spec fn index_of(held: Selected, pick: Pick) -> Option<int>
    decreases held.len(),
{
    if held.len() == 0 {
        None
    } else if held[0].0 == pick {
        Some(0)
    } else {
        match index_of(held.drop_first(), pick) {
            None => None,
            Some(index) => Some(index + 1),
        }
    }
}

/// Everything selected, without the names.
pub open spec fn picks_of(held: Selected) -> Seq<Pick> {
    Seq::new(held.len(), |i: int| held[i].0)
}

/// A selection of one thing and nothing else.
pub open spec fn only(world: Worldly, pick: Pick) -> Selected {
    if pick == Pick::Nothing {
        Seq::empty()
    } else {
        seq![(pick, pick_name(world, pick))]
    }
}

/// A selection with a thing added, or taken out if it was in.
pub open spec fn toggled(held: Selected, world: Worldly, pick: Pick) -> Selected {
    if pick == Pick::Nothing {
        held
    } else {
        match index_of(held, pick) {
            Some(index) => held.remove(index),
            None => held.push((pick, pick_name(world, pick))),
        }
    }
}

/// One selected thing looked for again: as it is with its name as it is now,
/// or what answers to its name if it is gone.
pub open spec fn looked_up(world: Worldly, one: (Pick, Seq<char>)) -> (Pick, Seq<char>) {
    if pick_lives(world, one.0) {
        (one.0, pick_name(world, one.0))
    } else {
        (found_again(world, one.0, one.1), one.1)
    }
}

/// A selection found again, without what nothing answers to any more.
pub open spec fn refreshed(held: Selected, world: Worldly) -> Selected
    decreases held.len(),
{
    if held.len() == 0 {
        Seq::empty()
    } else {
        let so_far = refreshed(held.drop_last(), world);
        let one = looked_up(world, held.last());
        if one.0 == Pick::Nothing {
            so_far
        } else {
            so_far.push(one)
        }
    }
}

/// Where a thing is among the selected is the first place it is at.
pub proof fn index_is_first(held: Selected, pick: Pick)
    ensures
        match index_of(held, pick) {
            None => forall|i: int| 0 <= i < held.len() ==> (#[trigger] held[i]).0 != pick,
            Some(index) => {
                &&& 0 <= index < held.len()
                &&& held[index].0 == pick
                &&& forall|i: int| 0 <= i < index ==> (#[trigger] held[i]).0 != pick
            },
        },
    decreases held.len(),
{
    if held.len() > 0 && held[0].0 != pick {
        let less = held.drop_first();
        index_is_first(less, pick);
        let limit = match index_of(less, pick) {
            None => held.len() as int,
            Some(index) => index + 1,
        };
        assert forall|i: int| 0 <= i < limit implies (#[trigger] held[i]).0 != pick by {
            if i > 0 {
                assert(held[i] == less[i - 1]);
            }
        }
    }
}

impl Selection {
    /// What is selected, each thing with its name.
    pub closed spec fn view(&self) -> Selected {
        Seq::new(self.held@.len(), |i: int| (self.held@[i].0, self.held@[i].1@))
    }

    /// Nothing selected.
    pub fn new() -> (result: Selection)
        ensures
            result.view() == Seq::<(Pick, Seq<char>)>::empty(),
    {
        let result: Selection = Selection { held: Vec::new() };
        assert(result.view() =~= Seq::empty());
        result
    }

    /// The primary: the last thing picked, or nothing.
    pub fn at(&self) -> (result: Pick)
        ensures
            result == primary(self.view()),
    {
        if self.held.len() == 0 {
            Pick::Nothing
        } else {
            self.held[self.held.len() - 1].0
        }
    }

    /// Where a thing is among the selected, if it is.
    fn find(&self, pick: Pick) -> (result: Option<usize>)
        ensures
            match index_of(self.view(), pick) {
                None => result is None,
                Some(index) => result is Some && result->0 == index && index < self.held@.len(),
            },
    {
        let ghost all = self.view();
        let mut i: usize = 0;
        assert(all.skip(0) =~= all);
        while i < self.held.len()
            invariant
                i <= self.held@.len(),
                all == self.view(),
                match index_of(all.skip(i as int), pick) {
                    None => index_of(all, pick) is None,
                    Some(index) => index_of(all, pick) == Some(index + i),
                },
            decreases self.held@.len() - i,
        {
            assert(all.skip(i as int)[0] == all[i as int]);
            assert(all.skip(i as int).drop_first() =~= all.skip(i as int + 1));
            if self.held[i].0 == pick {
                return Some(i);
            }
            i = i + 1;
        }
        None
    }

    /// Whether a particular thing is among the selected. Nothing never is.
    pub fn is(&self, pick: Pick) -> (result: bool)
        ensures
            result == (pick != Pick::Nothing && picks_of(self.view()).contains(pick)),
    {
        proof {
            index_is_first(self.view(), pick);
            if let Some(index) = index_of(self.view(), pick) {
                assert(picks_of(self.view())[index] == pick);
            }
        }
        pick != Pick::Nothing && self.find(pick).is_some()
    }

    /// How many things are selected.
    pub fn len(&self) -> (result: usize)
        ensures
            result == self.view().len(),
    {
        self.held.len()
    }

    /// Everything selected, the primary last.
    pub fn picks(&self) -> (result: Vec<Pick>)
        ensures
            result@ == picks_of(self.view()),
    {
        let mut found: Vec<Pick> = Vec::new();
        let mut i: usize = 0;
        while i < self.held.len()
            invariant
                i <= self.held@.len(),
                found@ == picks_of(self.view()).take(i as int),
            decreases self.held@.len() - i,
        {
            found.push(self.held[i].0);
            assert(picks_of(self.view()).take(i as int + 1) =~= picks_of(self.view()).take(
                i as int,
            ).push(self.held@[i as int].0));
            i = i + 1;
        }
        assert(picks_of(self.view()).take(i as int) =~= picks_of(self.view()));
        found
    }

    /// Everything selected but the primary.
    pub fn others(&self) -> (result: Vec<Pick>)
        ensures
            result@ == if self.view().len() == 0 {
                Seq::empty()
            } else {
                picks_of(self.view()).drop_last()
            },
    {
        let mut found: Vec<Pick> = self.picks();
        found.pop();
        assert(self.view().len() == 0 ==> found@ =~= Seq::empty());
        found
    }

    /// Selects one thing and nothing else, remembering what it is called.
    /// Nothing at all selects nothing at all.
    pub fn set(&mut self, world: &World, pick: Pick)
        ensures
            final(self).view() == only(world.view(), pick),
    {
        self.held.clear();
        if pick != Pick::Nothing {
            self.held.push((pick, pick.name(world).to_owned()));
        }
        assert(self.view() =~= only(world.view(), pick));
    }

    /// Adds a thing to the selection, or takes it out if it was in. A thing
    /// added becomes the primary.
    pub fn toggle(&mut self, world: &World, pick: Pick)
        ensures
            final(self).view() == toggled(old(self).view(), world.view(), pick),
    {
        if pick == Pick::Nothing {
            return;
        }
        let ghost was = self.view();
        match self.find(pick) {
            Some(index) => {
                self.held.remove(index);
                assert(self.view() =~= was.remove(index as int));
            },
            None => {
                self.held.push((pick, pick.name(world).to_owned()));
                assert(self.view() =~= was.push((pick, pick_name(world.view(), pick))));
            },
        }
    }

    /// Selects nothing.
    pub fn clear(&mut self)
        ensures
            final(self).view() == Seq::<(Pick, Seq<char>)>::empty(),
    {
        self.held.clear();
        assert(self.view() =~= Seq::empty());
    }

    /// Finds the selection again if the world was replaced under it.
    pub fn refresh(&mut self, world: &World)
        requires
            world.wf(),
        ensures
            final(self).view() == refreshed(old(self).view(), world.view()),
    {
        let ghost was = self.view();
        let mut kept: Vec<(Pick, String)> = Vec::new();
        let mut i: usize = 0;
        let ghost mut so_far: Selected = Seq::empty();
        assert(was.take(0) =~= Seq::empty());
        while i < self.held.len()
            invariant
                i <= self.held@.len(),
                world.wf(),
                was == self.view(),
                so_far == refreshed(was.take(i as int), world.view()),
                so_far == Seq::new(kept@.len(), |k: int| (kept@[k].0, kept@[k].1@)),
            decreases self.held@.len() - i,
        {
            let pick: Pick = self.held[i].0;
            let now: Pick = if pick.alive(world) {
                pick
            } else {
                again(world, pick, self.held[i].1.as_str())
            };
            let name: String = if pick.alive(world) {
                pick.name(world).to_owned()
            } else {
                self.held[i].1.clone()
            };
            proof {
                assert(was.take(i as int + 1).drop_last() =~= was.take(i as int));
                assert(was.take(i as int + 1).last() == was[i as int]);
                assert(looked_up(world.view(), was[i as int]) == (now, name@));
            }
            if now != Pick::Nothing {
                proof {
                    so_far = so_far.push((now, name@));
                }
                kept.push((now, name));
                assert(so_far =~= Seq::new(kept@.len(), |k: int| (kept@[k].0, kept@[k].1@)));
            }
            i = i + 1;
        }
        assert(was.take(i as int) =~= was);
        self.held = kept;
        assert(self.view() =~= so_far);
    }
}

impl Default for Selection {
    fn default() -> (result: Selection)
        ensures
            result.view() == Seq::<(Pick, Seq<char>)>::empty(),
    {
        Selection::new()
    }
}

/// Whether nothing is among the selected.
pub open spec fn no_nothing(held: Selected) -> bool {
    forall|i: int| 0 <= i < held.len() ==> (#[trigger] held[i]).0 != Pick::Nothing
}

/// Whether no thing is selected twice.
pub open spec fn no_pair(held: Selected) -> bool {
    forall|i: int, j: int|
        0 <= i < j < held.len() ==> (#[trigger] held[i]).0 != (#[trigger] held[j]).0
}

/// Nothing is ever among the selected, however the selection was made; and
/// picking never selects a thing twice.
pub proof fn selections_hold_things(held: Selected, world: Worldly, pick: Pick)
    requires
        no_nothing(held),
    ensures
        no_nothing(only(world, pick)),
        no_nothing(toggled(held, world, pick)),
        no_nothing(refreshed(held, world)),
        no_pair(only(world, pick)),
        no_pair(held) ==> no_pair(toggled(held, world, pick)),
{
    index_is_first(held, pick);
    refreshed_no_nothing(held, world);
    let after = toggled(held, world, pick);
    if let Some(index) = index_of(held, pick) {
        if pick != Pick::Nothing {
            assert forall|i: int| 0 <= i < after.len() implies (#[trigger] after[i]).0
                != Pick::Nothing by {
                assert(after[i] == if i < index { held[i] } else { held[i + 1] });
            }
            if no_pair(held) {
                assert forall|i: int, j: int| 0 <= i < j < after.len() implies (
                #[trigger] after[i]).0 != (#[trigger] after[j]).0 by {
                    let a = if i < index { i } else { i + 1 };
                    let b = if j < index { j } else { j + 1 };
                    assert(after[i] == held[a] && after[j] == held[b]);
                }
            }
        }
    }
}

/// A selection found again holds no nothing.
proof fn refreshed_no_nothing(held: Selected, world: Worldly)
    ensures
        no_nothing(refreshed(held, world)),
    decreases held.len(),
{
    if held.len() > 0 {
        refreshed_no_nothing(held.drop_last(), world);
    }
}

/// A thing added and taken out again leaves the selection as it was, and a
/// thing added is the primary.
pub proof fn toggled_twice(held: Selected, world: Worldly, pick: Pick)
    requires
        index_of(held, pick) is None,
    ensures
        toggled(toggled(held, world, pick), world, pick) == held,
        pick != Pick::Nothing ==> primary(toggled(held, world, pick)) == pick,
{
    if pick != Pick::Nothing {
        let more = toggled(held, world, pick);
        index_is_first(held, pick);
        index_is_first(more, pick);
        assert(more[more.len() - 1].0 == pick);
        let index = index_of(more, pick)->0;
        if index < held.len() {
            assert(more[index] == held[index]);
        }
        assert(more.remove(held.len() as int) =~= held);
    }
}

/// A selection that still resolves under the names it remembers is left
/// alone.
pub proof fn resolved_is_left_alone(held: Selected, world: Worldly)
    requires
        forall|i: int|
            0 <= i < held.len() ==> pick_lives(world, (#[trigger] held[i]).0) && held[i].1
                == pick_name(world, held[i].0),
    ensures
        refreshed(held, world) == held,
    decreases held.len(),
{
    if held.len() == 0 {
        assert(held =~= Seq::empty());
    } else {
        let less = held.drop_last();
        assert forall|i: int| 0 <= i < less.len() implies pick_lives(world, (#[trigger] less[i]).0)
            && less[i].1 == pick_name(world, less[i].0) by {
            assert(less[i] == held[i]);
        }
        resolved_is_left_alone(less, world);
        assert(held[held.len() - 1] == held.last());
        assert(less.push(held.last()) =~= held);
    }
}

/// What answers to a name is found in the table a pick came from wherever
/// anything there does; a pick that was nothing, and a name that is none, find
/// nothing.
pub proof fn a_name_is_found_again(world: World, id: Handle, name: Seq<char>, number: u32)
    requires
        world.wf(),
        name.len() > 0,
    ensures
        ({
            let view = world.view();
            &&& (exists|other: EntityId|
                lives(view.scene.entities, other) && #[trigger] name_at(view.scene.entities, other)
                    == name) ==> found_again(view, Pick::Entity(id), name) is Entity
            &&& (exists|other: BodyId|
                lives(view.scene.bodies, other) && #[trigger] name_at(view.scene.bodies, other)
                    == name) ==> found_again(view, Pick::Body(id), name) is Body
            &&& (exists|other: JointId|
                lives(view.scene.joints, other) && #[trigger] name_at(view.scene.joints, other)
                    == name) ==> found_again(view, Pick::Joint(id), name) is Joint
            &&& (exists|i: int|
                1 <= i < view.materials.len() && (#[trigger] view.materials[i]).name == name)
                ==> found_again(view, Pick::Material(number), name) is Material
            &&& (exists|i: int|
                1 <= i < view.models.len() && (#[trigger] view.models[i]).name == name)
                ==> found_again(view, Pick::Model(number), name) is Model
            &&& found_again(view, Pick::Nothing, name) == Pick::Nothing
            &&& found_again(view, Pick::Entity(id), Seq::empty()) == Pick::Nothing
        }),
{
    let view = world.view();
    living_resolves(view.scene.entities);
    living_resolves(view.scene.bodies);
    living_resolves(view.scene.joints);
    if exists|other: EntityId|
        lives(view.scene.entities, other) && #[trigger] name_at(view.scene.entities, other) == name {
        let other = choose|other: EntityId|
            lives(view.scene.entities, other) && #[trigger] name_at(view.scene.entities, other)
                == name;
        let ids = living(view.scene.entities);
        assert forall|i: int| 0 <= i < ids.len() implies lives(
            view.scene.entities,
            #[trigger] ids[i],
        ) by {
            assert(ids.contains(ids[i]));
        }
        first_is_found(view.scene.entities, ids, name, other);
    }
    if exists|other: BodyId|
        lives(view.scene.bodies, other) && #[trigger] name_at(view.scene.bodies, other) == name {
        let other = choose|other: BodyId|
            lives(view.scene.bodies, other) && #[trigger] name_at(view.scene.bodies, other) == name;
        let ids = living(view.scene.bodies);
        assert forall|i: int| 0 <= i < ids.len() implies lives(
            view.scene.bodies,
            #[trigger] ids[i],
        ) by {
            assert(ids.contains(ids[i]));
        }
        first_is_found(view.scene.bodies, ids, name, other);
    }
    if exists|other: JointId|
        lives(view.scene.joints, other) && #[trigger] name_at(view.scene.joints, other) == name {
        let other = choose|other: JointId|
            lives(view.scene.joints, other) && #[trigger] name_at(view.scene.joints, other) == name;
        let ids = living(view.scene.joints);
        assert forall|i: int| 0 <= i < ids.len() implies lives(
            view.scene.joints,
            #[trigger] ids[i],
        ) by {
            assert(ids.contains(ids[i]));
        }
        first_is_found(view.scene.joints, ids, name, other);
    }
    crate::world::numbered_is_first(view.materials, name, 1);
    crate::world::numbered_is_first(view.models, name, 1);
}

/// Where one of several handles has a name, one is found that does.
proof fn first_is_found<F>(table: Seq<Standing<F>>, ids: Seq<Handle>, name: Seq<char>, id: Handle)
    requires
        ids.contains(id),
        name_at(table, id) == name,
        forall|i: int| 0 <= i < ids.len() ==> lives(table, #[trigger] ids[i]),
        forall|i: int| 0 <= i < table.len() ==> (#[trigger] table[i]).generation >= 1,
    ensures
        first_called(table, ids, name).some(),
    decreases ids.len(),
{
    assert(lives(table, ids[0]));
    if name_at(table, ids[0]) != name {
        let rest = ids.drop_first();
        let k = choose|k: int| 0 <= k < ids.len() && ids[k] == id;
        assert(rest[k - 1] == id);
        first_is_found(table, rest, name, id);
    }
}

/// A selection found again keeps everything that lives, in its order and under
/// the name it has now, and drops what is gone and answers to no name.
pub proof fn what_lives_stays_selected(held: Selected, world: Worldly, i: int)
    requires
        0 <= i < held.len(),
    ensures
        pick_lives(world, held[i].0) ==> picks_of(refreshed(held, world)).contains(held[i].0),
        refreshed(held, world).len() <= held.len(),
        forall|k: int|
            0 <= k < refreshed(held, world).len() ==> pick_lives(
                world,
                (#[trigger] refreshed(held, world)[k]).0,
            ) && refreshed(held, world)[k].1 == pick_name(world, refreshed(held, world)[k].0)
                || exists|j: int|
                0 <= j < held.len() && !pick_lives(world, (#[trigger] held[j]).0)
                    && refreshed(held, world)[k] == (
                    found_again(world, held[j].0, held[j].1),
                    held[j].1,
                ),
    decreases held.len(),
{
    let less = held.drop_last();
    let so_far = refreshed(less, world);
    let all = refreshed(held, world);
    let one = looked_up(world, held.last());
    assert(held[held.len() - 1] == held.last());
    if less.len() > 0 {
        let j = if i < less.len() {
            i
        } else {
            0
        };
        what_lives_stays_selected(less, world, j);
        assert forall|k: int| 0 <= k < all.len() implies pick_lives(world, (#[trigger] all[k]).0)
            && all[k].1 == pick_name(world, all[k].0) || exists|j: int|
            0 <= j < held.len() && !pick_lives(world, (#[trigger] held[j]).0) && all[k] == (
                found_again(world, held[j].0, held[j].1),
                held[j].1,
            ) by {
            if k < so_far.len() {
                assert(all[k] == so_far[k]);
                if !(pick_lives(world, so_far[k].0) && so_far[k].1 == pick_name(
                    world,
                    so_far[k].0,
                )) {
                    let j = choose|j: int|
                        0 <= j < less.len() && !pick_lives(world, (#[trigger] less[j]).0)
                            && so_far[k] == (
                            found_again(world, less[j].0, less[j].1),
                            less[j].1,
                        );
                    assert(held[j] == less[j]);
                }
            }
        }
    }
    if pick_lives(world, held[i].0) {
        assert(held[i].0 != Pick::Nothing);
        if i < less.len() {
            assert(less[i] == held[i]);
            let picks = picks_of(so_far);
            let k = choose|k: int| 0 <= k < picks.len() && picks[k] == held[i].0;
            assert(picks_of(all)[k] == held[i].0);
        } else {
            assert(picks_of(all)[so_far.len() as int] == held[i].0);
        }
    }
}

/// A pick is alive where its own table or registry holds it, and is called what
/// it is called there; what is nothing is neither.
pub proof fn a_pick_is_what_its_table_holds(world: Worldly, id: Handle, number: u32)
    ensures
        !pick_lives(world, Pick::Nothing),
        pick_name(world, Pick::Nothing).len() == 0,
        pick_lives(world, Pick::Entity(id)) == lives(world.scene.entities, id),
        pick_lives(world, Pick::Body(id)) == lives(world.scene.bodies, id),
        pick_lives(world, Pick::Joint(id)) == lives(world.scene.joints, id),
        pick_lives(world, Pick::Material(number)) == (number < world.materials.len()),
        pick_lives(world, Pick::Model(number)) == (number < world.models.len()),
        pick_name(world, Pick::Entity(id)) == name_at(world.scene.entities, id),
        pick_name(world, Pick::Body(id)) == name_at(world.scene.bodies, id),
        pick_name(world, Pick::Joint(id)) == name_at(world.scene.joints, id),
        number < world.materials.len() ==> pick_name(world, Pick::Material(number))
            == world.materials[number as int].name,
        number < world.models.len() ==> pick_name(world, Pick::Model(number))
            == world.models[number as int].name,
{
}

} // verus!
