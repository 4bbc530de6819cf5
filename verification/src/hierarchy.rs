//! The world as a tree, nested the way the tables say: an entity under what
//! it hangs off, the bodies driving it under the entity, the bodies driving
//! nothing on their own, and the joints last.

use vstd::prelude::*;
use vstd::string::*;
use crate::change::{presses, Change, Pressed};
use crate::edit::{driven_by, drives};
use crate::select::Pick;
use crate::table::{lives, living, living_resolves, sound, thing_at, Handle};
use crate::text::{decimal, digits};
use crate::tree::{parent, parent_of, shown, visible, Entities};
use crate::world::{BodyId, EntityId, JointId, Scene, MAX_ENTITIES};

verus! {

/// The panel's own state: the handles it draws, refilled every frame.
#[derive(Debug)]
pub struct Hierarchy {
    /// The living entity handles.
    pub entities: Vec<EntityId>,
    /// The living body handles.
    pub bodies: Vec<BodyId>,
    /// The living joint handles.
    pub joints: Vec<JointId>,
    /// The entities hanging off nothing, in slot order.
    pub roots: Vec<EntityId>,
    /// The children of each entity, by the parent's slot.
    pub children: Vec<Vec<EntityId>>,
}

/// Whether an entity hangs off nothing.
pub open spec fn stands_alone(entities: Entities, id: EntityId) -> bool {
    !parent_of(entities, id).some()
}

/// Whether an entity hangs off what stands in a slot.
pub open spec fn hangs_in(entities: Entities, id: EntityId, slot: int) -> bool {
    parent_of(entities, id).some() && parent_of(entities, id).slot == slot
}

/// Whether handles are filed: the first so many living entities each among
/// the roots or under what they hang off.
pub open spec fn filed(
    entities: Entities,
    roots: Seq<EntityId>,
    children: Seq<Vec<EntityId>>,
    count: int,
) -> bool {
    let some = living(entities).take(count);
    &&& children.len() == entities.len()
    &&& roots == some.filter(|id: EntityId| stands_alone(entities, id))
    &&& forall|slot: int|
        0 <= slot < children.len() ==> (#[trigger] children[slot])@ == some.filter(
            |id: EntityId| hangs_in(entities, id, slot),
        )
}

impl Hierarchy {
    /// A panel that draws nothing yet.
    pub fn new() -> (result: Hierarchy)
        ensures
            result.entities@.len() == 0,
            result.bodies@.len() == 0,
            result.joints@.len() == 0,
            result.roots@.len() == 0,
            result.children@.len() == 0,
    {
        Hierarchy {
            entities: Vec::new(),
            bodies: Vec::new(),
            joints: Vec::new(),
            roots: Vec::new(),
            children: Vec::new(),
        }
    }

    /// Refills the lists of what is alive, and which entity hangs off which.
    pub fn gather(&mut self, scene: &Scene)
        requires
            scene.wf(),
        ensures
            final(self).entities@ == living(scene.view().entities),
            final(self).bodies@ == living(scene.view().bodies),
            final(self).joints@ == living(scene.view().joints),
            filed(
                scene.view().entities,
                final(self).roots@,
                final(self).children@,
                living(scene.view().entities).len() as int,
            ),
    {
        let ghost entities = scene.view().entities;
        self.entities = scene.entities.ids();
        self.bodies = scene.bodies.ids();
        self.joints = scene.joints.ids();
        self.roots = Vec::new();
        self.children = Vec::new();
        let count: usize = scene.entities.slots();
        let mut slot: usize = 0;
        let ghost none = living(entities).take(0);
        proof {
            reveal(Seq::filter);
            assert(none =~= Seq::empty());
            assert forall|wanted: spec_fn(EntityId) -> bool| #[trigger] none.filter(wanted)
                == Seq::<EntityId>::empty() by {}
        }
        while slot < count
            invariant
                slot <= count,
                count == entities.len(),
                self.children@.len() == slot,
                self.entities@ == living(entities),
                self.bodies@ == living(scene.view().bodies),
                self.joints@ == living(scene.view().joints),
                self.roots@.len() == 0,
                forall|k: int| 0 <= k < slot ==> (#[trigger] self.children@[k])@.len() == 0,
            decreases count - slot,
        {
            self.children.push(Vec::new());
            slot = slot + 1;
        }
        proof {
            assert(self.roots@ =~= none.filter(|id: EntityId| stands_alone(entities, id)));
            assert forall|slot: int| 0 <= slot < self.children@.len() implies (
            #[trigger] self.children@[slot])@ == none.filter(
                |id: EntityId| hangs_in(entities, id, slot),
            ) by {
                assert(self.children@[slot]@ =~= Seq::empty());
            }
        }
        let mut i: usize = 0;
        while i < self.entities.len()
            invariant
                i <= self.entities@.len(),
                entities == scene.view().entities,
                scene.wf(),
                self.entities@ == living(entities),
                self.bodies@ == living(scene.view().bodies),
                self.joints@ == living(scene.view().joints),
                filed(entities, self.roots@, self.children@, i as int),
            decreases self.entities@.len() - i,
        {
            let id: EntityId = self.entities[i];
            self.file(scene, id, Ghost(i as int));
            i = i + 1;
        }
    }

    /// Puts one entity under its parent, or among the roots.
    fn file(&mut self, scene: &Scene, id: EntityId, Ghost(count): Ghost<int>)
        requires
            scene.wf(),
            0 <= count < living(scene.view().entities).len(),
            living(scene.view().entities)[count] == id,
            filed(scene.view().entities, old(self).roots@, old(self).children@, count),
        ensures
            final(self).entities == old(self).entities,
            final(self).bodies == old(self).bodies,
            final(self).joints == old(self).joints,
            filed(scene.view().entities, final(self).roots@, final(self).children@, count + 1),
    {
        let ghost entities = scene.view().entities;
        let ghost all = living(entities);
        let ghost was = self.children@;
        let ghost stood = self.roots@;
        let under: EntityId = parent(&scene.entities, id);
        proof {
            reveal(Seq::filter);
            assert(all.take(count + 1).drop_last() =~= all.take(count));
            assert(all.take(count + 1).last() == id);
        }
        let at: usize = under.slot as usize;
        if under.is_some() && at < self.children.len() {
            self.children[at].push(id);
        } else {
            assert(!under.some());
            self.roots.push(id);
        }
        proof {
            let some = all.take(count);
            let more = all.take(count + 1);
            assert forall|slot: int| 0 <= slot < self.children@.len() implies (
            #[trigger] self.children@[slot])@ == more.filter(
                |id: EntityId| hangs_in(entities, id, slot),
            ) by {
                assert(was[slot]@ == some.filter(|id: EntityId| hangs_in(entities, id, slot)));
                if under.some() && slot == at {
                    assert(self.children@[slot]@ == was[slot]@.push(id));
                } else {
                    assert(self.children@[slot] == was[slot]);
                }
            }
        }
    }

    /// The bodies driving one entity.
    pub fn driving(&self, scene: &Scene, entity: EntityId) -> (result: Vec<BodyId>)
        ensures
            result@ == self.bodies@.filter(
                |body: BodyId| driven_by(scene.view(), body) == Some(entity),
            ),
    {
        let ghost all = self.bodies@;
        let ghost wanted = |body: BodyId| driven_by(scene.view(), body) == Some(entity);
        let mut found: Vec<BodyId> = Vec::new();
        let mut i: usize = 0;
        proof {
            reveal(Seq::filter);
            assert(all.take(0).filter(wanted) =~= Seq::empty());
        }
        while i < self.bodies.len()
            invariant
                i <= self.bodies@.len(),
                all == self.bodies@,
                wanted == (|body: BodyId| driven_by(scene.view(), body) == Some(entity)),
                found@ == all.take(i as int).filter(wanted),
            decreases self.bodies@.len() - i,
        {
            proof {
                reveal(Seq::filter);
                assert(all.take(i as int + 1).drop_last() =~= all.take(i as int));
                assert(all.take(i as int + 1).last() == all[i as int]);
            }
            match drives(scene, self.bodies[i]) {
                Some(driven) => {
                    if driven == entity {
                        found.push(self.bodies[i]);
                    }
                },
                None => {},
            }
            i = i + 1;
        }
        assert(all.take(i as int) =~= all);
        found
    }

    /// The bodies nothing living stands on.
    pub fn loose(&self, scene: &Scene) -> (result: Vec<BodyId>)
        ensures
            result@ == self.bodies@.filter(|body: BodyId| driven_by(scene.view(), body) is None),
    {
        let ghost all = self.bodies@;
        let ghost wanted = |body: BodyId| driven_by(scene.view(), body) is None;
        let mut found: Vec<BodyId> = Vec::new();
        let mut i: usize = 0;
        proof {
            reveal(Seq::filter);
            assert(all.take(0).filter(wanted) =~= Seq::empty());
        }
        while i < self.bodies.len()
            invariant
                i <= self.bodies@.len(),
                all == self.bodies@,
                wanted == (|body: BodyId| driven_by(scene.view(), body) is None),
                found@ == all.take(i as int).filter(wanted),
            decreases self.bodies@.len() - i,
        {
            proof {
                reveal(Seq::filter);
                assert(all.take(i as int + 1).drop_last() =~= all.take(i as int));
                assert(all.take(i as int + 1).last() == all[i as int]);
            }
            if drives(scene, self.bodies[i]).is_none() {
                found.push(self.bodies[i]);
            }
            i = i + 1;
        }
        assert(all.take(i as int) =~= all);
        found
    }

    /// How much of everything there is, in words.
    pub fn heading(&self) -> (result: String)
        ensures
            result@ == digits(self.entities@.len()) + " entities, "@ + digits(self.bodies@.len())
                + " bodies, "@ + digits(self.joints@.len()) + " joints"@,
    {
        let mut out: String = decimal(self.entities.len() as u64);
        out.append(" entities, ");
        out.append(decimal(self.bodies.len() as u64).as_str());
        out.append(" bodies, ");
        out.append(decimal(self.joints.len() as u64).as_str());
        out.append(" joints");
        out
    }
}

impl Default for Hierarchy {
    fn default() -> (result: Hierarchy)
        ensures
            result.entities@.len() == 0,
            result.bodies@.len() == 0,
            result.joints@.len() == 0,
            result.roots@.len() == 0,
            result.children@.len() == 0,
    {
        Hierarchy::new()
    }
}

/// Every living entity is filed in exactly one place: among the roots where
/// it hangs off nothing, and otherwise under the slot of what it hangs off
/// and no other.
pub proof fn filed_once(
    entities: Entities,
    roots: Seq<EntityId>,
    children: Seq<Vec<EntityId>>,
    id: EntityId,
)
    requires
        sound(entities, MAX_ENTITIES as nat),
        filed(entities, roots, children, living(entities).len() as int),
    ensures
        roots.contains(id) <==> lives(entities, id) && stands_alone(entities, id),
        forall|slot: int|
            0 <= slot < children.len() ==> ((#[trigger] children[slot])@.contains(id) <==> lives(
                entities,
                id,
            ) && hangs_in(entities, id, slot)),
{
    let all = living(entities);
    assert(all.take(all.len() as int) =~= all);
    living_resolves(entities);
    let alone = |id: EntityId| stands_alone(entities, id);
    crate::edit::filter_contains(all, alone);
    assert(roots.contains(id) <==> all.contains(id) && alone(id));
    assert forall|slot: int| 0 <= slot < children.len() implies ((
    #[trigger] children[slot])@.contains(id) <==> lives(entities, id) && hangs_in(
        entities,
        id,
        slot,
    )) by {
        let here = |id: EntityId| hangs_in(entities, id, slot);
        crate::edit::filter_contains(all, here);
        assert(children[slot]@ == all.filter(here));
        assert(children[slot]@.contains(id) <==> all.contains(id) && here(id));
    }
}

/// What a press on any row comes to: a click selects, a ctrl-click adds or
/// takes out, a right click selects what was not selected.
pub open spec fn row_presses(
    pick: Pick,
    clicked: bool,
    command: bool,
    secondary: bool,
    selected: bool,
) -> Seq<Pressed> {
    let first = if clicked && command {
        seq![Pressed::Toggle(pick)]
    } else if clicked {
        seq![Pressed::Select(pick)]
    } else {
        Seq::empty()
    };
    if secondary && !selected {
        first.push(Pressed::Select(pick))
    } else {
        first
    }
}

/// What a press on any row comes to.
pub fn acted(
    pick: Pick,
    clicked: bool,
    command: bool,
    secondary: bool,
    selected: bool,
) -> (result: Vec<Change>)
    ensures
        presses(result@) == row_presses(pick, clicked, command, secondary, selected),
{
    let mut changes: Vec<Change> = Vec::new();
    assert(presses(changes@) =~= Seq::empty());
    if clicked {
        if command {
            changes.push(Change::Toggle(pick));
            assert(presses(changes@) =~= seq![Pressed::Toggle(pick)]);
        } else {
            changes.push(Change::Select(pick));
            assert(presses(changes@) =~= seq![Pressed::Select(pick)]);
        }
    }
    let ghost so_far = presses(changes@);
    if secondary && !selected {
        changes.push(Change::Select(pick));
        assert(presses(changes@) =~= so_far.push(Pressed::Select(pick)));
    }
    changes
}

/// Whether a row let go over another is hung off it: a row cannot be hung off
/// itself. Let go over the floor it stands on its own.
pub fn hangs_on(held: EntityId, over: Option<EntityId>) -> (result: Option<EntityId>)
    ensures
        result == match over {
            Some(row) => if row == held {
                None
            } else {
                Some(row)
            },
            None => Some(Handle::nothing()),
        },
{
    match over {
        Some(row) => if row == held {
            None
        } else {
            Some(row)
        },
        None => Some(Handle::none()),
    }
}

/// How the eye in front of a row is drawn.
#[derive(Clone, Copy, Debug, PartialEq, Eq, Structural)]
pub struct Eye {
    /// Whether it is dim: the thing is not drawn.
    pub weak: bool,
    /// Whether it is struck through: the thing's own word hides it.
    pub struck: bool,
}

/// The eye in front of an entity's row.
pub fn eye(scene: &Scene, id: EntityId) -> (result: Eye)
    ensures
        result.struck == (lives(scene.view().entities, id) && thing_at(
            scene.view().entities,
            id,
        ).facts.hidden),
        result.weak == !visible(scene.view().entities, id, MAX_ENTITIES as nat),
{
    let own: bool = match scene.entities.get(id) {
        Some(facts) => facts.hidden,
        None => false,
    };
    Eye { weak: !shown(&scene.entities, id), struck: own }
}

/// What pressing the eye asks for: the entity's own word flipped, and
/// nothing else.
pub fn eye_pressed(scene: &Scene, id: EntityId) -> (result: Change)
    ensures
        result.view() == (Pressed::Hide {
            entity: id,
            hidden: !(lives(scene.view().entities, id) && thing_at(
                scene.view().entities,
                id,
            ).facts.hidden),
        }),
{
    let own: bool = match scene.entities.get(id) {
        Some(facts) => facts.hidden,
        None => false,
    };
    Change::Hide { entity: id, hidden: !own }
}

/// A click on a row selects it and nothing more, and with the command key adds it
/// or takes it out; a right click selects a row that was not selected and leaves
/// one that was; no press does nothing.
pub proof fn what_a_press_on_a_row_does(pick: Pick, command: bool, selected: bool)
    ensures
        row_presses(pick, true, false, false, selected) == seq![Pressed::Select(pick)],
        row_presses(pick, true, true, false, selected) == seq![Pressed::Toggle(pick)],
        row_presses(pick, false, command, true, false) == seq![Pressed::Select(pick)],
        row_presses(pick, false, command, true, true).len() == 0,
        row_presses(pick, false, command, false, selected).len() == 0,
{
    assert(Seq::<Pressed>::empty().push(Pressed::Select(pick)) =~= seq![Pressed::Select(pick)]);
}

} // verus!
