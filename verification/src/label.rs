//! What things are called in a panel: by their names, or by what they are
//! made of in angle brackets, so that a name and a description can never be
//! mistaken for each other.

use vstd::prelude::*;
use vstd::string::*;
use crate::table::{lives, name_at, thing_at};
use crate::text::{decimal, digits, plus};
use crate::world::{asset_name, Body, BodyId, EntityId, JointId, World, Worldly};

verus! {

/// What an entity is called in a panel: its name, or the mesh it draws, or
/// its slot.
pub open spec fn entity_words(world: Worldly, id: EntityId) -> Seq<char> {
    let entities = world.scene.entities;
    let name = name_at(entities, id);
    let mesh = if lives(entities, id) {
        asset_name(world.meshes, thing_at(entities, id).facts.mesh)
    } else {
        Seq::empty()
    };
    if name.len() > 0 {
        name
    } else if mesh.len() == 0 {
        "<entity "@ + digits(id.slot as nat) + ">"@
    } else {
        "<"@ + mesh + ">"@
    }
}

/// Something in angle brackets.
fn bracketed(before: &str, middle: &str) -> (result: String)
    ensures
        result@ == before@ + middle@ + ">"@,
{
    plus(plus(before, middle).as_str(), ">")
}

/// What to call an entity in a panel.
pub fn entity_label(world: &World, id: EntityId) -> (result: String)
    ensures
        result@ == entity_words(world.view(), id),
{
    let name: &str = world.scene.entities.name(id);
    if !name.is_empty() {
        return name.to_owned();
    }
    let mesh: u32 = match world.scene.entities.get(id) {
        Some(facts) => facts.mesh,
        None => {
            return bracketed("<entity ", decimal(id.slot as u64).as_str());
        },
    };
    let drawn: &str = world.meshes.name(mesh);
    if drawn.is_empty() {
        bracketed("<entity ", decimal(id.slot as u64).as_str())
    } else {
        bracketed("<", drawn)
    }
}

/// What a body is, in the fewest words that say it.
pub open spec fn body_said(body: Body) -> Seq<char> {
    if body.sensor {
        body.kind.said() + " "@ + body.shape.said() + " sensor"@
    } else {
        body.kind.said() + " "@ + body.shape.said()
    }
}

/// What a body is, in the fewest words that say it.
pub fn body_words(body: Body) -> (result: String)
    ensures
        result@ == body_said(body),
{
    let words: String = plus(plus(body.kind.word(), " ").as_str(), body.shape.word());
    if body.sensor {
        plus(words.as_str(), " sensor")
    } else {
        words
    }
}

/// What a body is called in a panel.
pub open spec fn body_called(world: Worldly, id: BodyId) -> Seq<char> {
    let bodies = world.scene.bodies;
    if name_at(bodies, id).len() > 0 {
        name_at(bodies, id)
    } else if lives(bodies, id) {
        "<"@ + (body_said(thing_at(bodies, id).facts) + " "@ + digits(id.slot as nat)) + ">"@
    } else {
        "<body "@ + digits(id.slot as nat) + ">"@
    }
}

/// What to call a body in a panel.
pub fn body_label(world: &World, id: BodyId) -> (result: String)
    ensures
        result@ == body_called(world.view(), id),
{
    let name: &str = world.scene.bodies.name(id);
    if !name.is_empty() {
        return name.to_owned();
    }
    let slot: String = decimal(id.slot as u64);
    match world.scene.bodies.get(id) {
        None => bracketed("<body ", slot.as_str()),
        Some(facts) => {
            let words: String = plus(body_words(facts).as_str(), " ");
            bracketed("<", plus(words.as_str(), slot.as_str()).as_str())
        },
    }
}

/// What a joint is called in a panel.
pub open spec fn joint_called(world: Worldly, id: JointId) -> Seq<char> {
    let joints = world.scene.joints;
    if name_at(joints, id).len() > 0 {
        name_at(joints, id)
    } else if lives(joints, id) {
        "<"@ + (thing_at(joints, id).facts.kind.said() + " "@ + digits(id.slot as nat)) + ">"@
    } else {
        "<joint "@ + digits(id.slot as nat) + ">"@
    }
}

/// What to call a joint in a panel.
pub fn joint_label(world: &World, id: JointId) -> (result: String)
    ensures
        result@ == joint_called(world.view(), id),
{
    let name: &str = world.scene.joints.name(id);
    if !name.is_empty() {
        return name.to_owned();
    }
    let slot: String = decimal(id.slot as u64);
    match world.scene.joints.get(id) {
        None => bracketed("<joint ", slot.as_str()),
        Some(facts) => {
            let words: String = plus(facts.kind.word(), " ");
            bracketed("<", plus(words.as_str(), slot.as_str()).as_str())
        },
    }
}

/// A description is never mistaken for a name that does not begin with an
/// angle bracket: whatever has no name is called by something that does.
pub proof fn descriptions_stand_in_brackets(world: Worldly, id: EntityId)
    ensures
        name_at(world.scene.entities, id).len() == 0 ==> entity_words(world, id).len() > 1
            && entity_words(world, id)[0] == '<' && entity_words(world, id).last() == '>',
        name_at(world.scene.bodies, id).len() == 0 ==> body_called(world, id).len() > 1
            && body_called(world, id)[0] == '<' && body_called(world, id).last() == '>',
        name_at(world.scene.joints, id).len() == 0 ==> joint_called(world, id).len() > 1
            && joint_called(world, id)[0] == '<' && joint_called(world, id).last() == '>',
{
    reveal_strlit("<");
    reveal_strlit(">");
    reveal_strlit("<entity ");
    reveal_strlit("<body ");
    reveal_strlit("<joint ");
}

/// What has a name is called by it, and an entity that has none by the mesh it
/// draws.
pub proof fn things_are_called_by_name_first(world: Worldly, id: EntityId)
    ensures
        name_at(world.scene.entities, id).len() > 0 ==> entity_words(world, id) == name_at(
            world.scene.entities,
            id,
        ),
        name_at(world.scene.bodies, id).len() > 0 ==> body_called(world, id) == name_at(
            world.scene.bodies,
            id,
        ),
        name_at(world.scene.joints, id).len() > 0 ==> joint_called(world, id) == name_at(
            world.scene.joints,
            id,
        ),
        ({
            let facts = thing_at(world.scene.entities, id).facts;
            let mesh = asset_name(world.meshes, facts.mesh);
            lives(world.scene.entities, id) && name_at(world.scene.entities, id).len() == 0
                && mesh.len() > 0 ==> entity_words(world, id) == seq!['<'] + mesh + seq!['>']
        }),
{
    reveal_strlit("<");
    reveal_strlit(">");
    assert("<"@ =~= seq!['<']);
    assert(">"@ =~= seq!['>']);
}

/// Bodies that move differently or are shaped differently are never described
/// alike, and a sensor is never described as a body that pushes.
pub proof fn bodies_are_described_by_how_they_move(one: Body, other: Body)
    ensures
        one.kind != other.kind ==> body_said(one) != body_said(other),
        one.kind == other.kind && one.shape != other.shape ==> body_said(one) != body_said(other),
        one.kind == other.kind && one.shape == other.shape && one.sensor != other.sensor
            ==> body_said(one) != body_said(other),
        one.kind == other.kind && one.shape == other.shape && one.sensor == other.sensor
            ==> body_said(one) == body_said(other),
{
    reveal_strlit("static");
    reveal_strlit("kinematic");
    reveal_strlit("dynamic");
    reveal_strlit("box");
    reveal_strlit("sphere");
    reveal_strlit("mesh");
    reveal_strlit(" ");
    reveal_strlit(" sensor");
    assert(one.kind.said().len() > 0 && body_said(one)[0] == one.kind.said()[0]);
    assert(other.kind.said().len() > 0 && body_said(other)[0] == other.kind.said()[0]);
    let at = one.kind.said().len() as int + 1;
    assert(body_said(one)[at] == one.shape.said()[0]);
    if one.kind == other.kind {
        assert(body_said(other)[at] == other.shape.said()[0]);
    }
}

/// What has neither a name nor a mesh is called by its slot, so that two of them
/// are told apart; a body and a joint say what they are as well.
pub proof fn nameless_things_are_told_by_their_slots(world: Worldly, id: EntityId)
    ensures
        ({
            let facts = thing_at(world.scene.entities, id).facts;
            name_at(world.scene.entities, id).len() == 0 && (!lives(world.scene.entities, id)
                || asset_name(world.meshes, facts.mesh).len() == 0) ==> entity_words(world, id)
                == "<entity "@ + digits(id.slot as nat) + ">"@
        }),
        name_at(world.scene.bodies, id).len() == 0 && !lives(world.scene.bodies, id)
            ==> body_called(world, id) == "<body "@ + digits(id.slot as nat) + ">"@,
        name_at(world.scene.joints, id).len() == 0 && !lives(world.scene.joints, id)
            ==> joint_called(world, id) == "<joint "@ + digits(id.slot as nat) + ">"@,
        ({
            let body = thing_at(world.scene.bodies, id).facts;
            name_at(world.scene.bodies, id).len() == 0 && lives(world.scene.bodies, id)
                ==> body_called(world, id) == "<"@ + (body.kind.said() + " "@ + body.shape.said()
                + (if body.sensor {
                " sensor"@
            } else {
                Seq::empty()
            }) + " "@ + digits(id.slot as nat)) + ">"@
        }),
        ({
            let joint = thing_at(world.scene.joints, id).facts;
            name_at(world.scene.joints, id).len() == 0 && lives(world.scene.joints, id)
                ==> joint_called(world, id) == "<"@ + (joint.kind.said() + " "@ + digits(
                id.slot as nat,
            )) + ">"@
        }),
{
    let body = thing_at(world.scene.bodies, id).facts;
    let plain = body.kind.said() + " "@ + body.shape.said();
    assert(plain + Seq::<char>::empty() =~= plain);
}

} // verus!
