//! What presses come to: what is selected then, what is asked, what a step back
//! over them is called, and what of the world they change.

use vstd::prelude::*;
use vstd::string::*;
use crate::catalog::Kind;
use crate::change::Pressed;
use crate::copy::{became_is_a_copy, copies_of, copy_of, doubled, was_copied, Doubled};
use crate::edit::{driver_of, moved, renamed, replaced_is_sound, stood};
use crate::gizmo::Tool;
use crate::history::sound as past_sound;
use crate::make::stem_of;
use crate::outcomes::{a_deletion_takes_exactly_what_goes, body_goes, goes, same_but_for};
use crate::panels::{
    applied, dropped, keys_asked, on_bake, on_block, on_decal, on_delete, on_drop, on_duplicate,
    on_edit, on_group, on_hang, on_hide, on_inside, on_inspect, on_light, on_redo, on_rename_asset,
    on_undo, on_ungroup, on_water, on_word, selected_all, with_group, Asked, Held, Key, Press,
};
use crate::select::{index_is_first, index_of, no_pair, picks_of, primary, toggled, Pick};
use crate::table::{lives, living, living_resolves, next_handle, sound, thing_at, Handle, Thing};
use crate::text::trimmed;
use crate::tree::{below, hung, may_hang, parent_of, rooted, the_walk_finds_it, Entities};
use crate::world::{
    numbered_is_first, Body, BodyId, Described, Entity, EntityId, Transform, Worldly, MAX_BODIES,
    MAX_ENTITIES, MAX_JOINTS,
};

verus! {

/// Several things picked one after the other, none of them twice, are what is
/// selected, in that order and under their names; the last of them is the
/// primary.
pub proof fn picking_several_selects_them(world: Worldly, picks: Seq<Pick>)
    requires
        picks.no_duplicates(),
        !picks.contains(Pick::Nothing),
    ensures
        picks_of(selected_all(world, picks)) == picks,
        forall|i: int|
            0 <= i < picks.len() ==> (#[trigger] selected_all(world, picks)[i]).1
                == crate::select::pick_name(world, picks[i]),
        picks.len() > 0 ==> primary(selected_all(world, picks)) == picks.last(),
    decreases picks.len(),
{
    let all = selected_all(world, picks);
    if picks.len() > 0 {
        let less = picks.drop_last();
        assert(!less.contains(Pick::Nothing)) by {
            if less.contains(Pick::Nothing) {
                let k = choose|k: int| 0 <= k < less.len() && less[k] == Pick::Nothing;
                assert(picks[k] == Pick::Nothing);
            }
        }
        picking_several_selects_them(world, less);
        let so_far = selected_all(world, less);
        let pick = picks.last();
        assert(picks.contains(picks[picks.len() - 1]));
        index_is_first(so_far, pick);
        assert(picks_of(so_far).len() == less.len());
        if let Some(index) = index_of(so_far, pick) {
            assert(picks_of(so_far)[index] == less[index]);
            assert(picks[index] == pick);
            assert(picks[picks.len() - 1] == pick);
        }
        assert(all == so_far.push((pick, crate::select::pick_name(world, pick))));
        assert(picks_of(all) =~= picks) by {
            assert forall|i: int| 0 <= i < picks.len() implies picks_of(all)[i] == picks[i] by {
                if i < less.len() {
                    assert(picks_of(so_far)[i] == less[i]);
                }
            }
        }
        assert forall|i: int| 0 <= i < picks.len() implies (#[trigger] all[i]).1
            == crate::select::pick_name(world, picks[i]) by {
            if i < less.len() {
                assert(all[i] == so_far[i]);
                assert(less[i] == picks[i]);
            }
        }
    } else {
        assert(picks_of(all) =~= picks);
    }
}

/// Deleting takes exactly what is selected, what hangs off it, the bodies driving
/// any of that and the joints holding any of those, and selects nothing; with
/// nothing selected it does nothing.
pub proof fn delete_takes_what_is_selected(held: Held, world: Worldly)
    requires
        sound(world.scene.entities, MAX_ENTITIES as nat),
        sound(world.scene.bodies, MAX_BODIES as nat),
        sound(world.scene.joints, MAX_JOINTS as nat),
        rooted(world.scene.entities),
    ensures
        ({
            let (then, after, asked) = applied(held, world, Pressed::Delete);
            let scene = world.scene;
            let picks = picks_of(held.selection);
            &&& asked is None
            &&& held.selection.len() == 0 ==> then == held && after == world
            &&& held.selection.len() > 0 ==> {
                &&& then.selection.len() == 0
                &&& forall|id: EntityId| #[trigger]
                    lives(after.scene.entities, id) == (lives(scene.entities, id) && !goes(
                        scene.entities,
                        picks,
                        id,
                    ))
                &&& forall|id: BodyId| #[trigger]
                    lives(after.scene.bodies, id) == (lives(scene.bodies, id) && !body_goes(
                        scene,
                        picks,
                        id,
                    ))
                &&& forall|id: EntityId|
                    lives(after.scene.entities, id) ==> #[trigger] thing_at(
                        after.scene.entities,
                        id,
                    ) == thing_at(scene.entities, id)
                &&& forall|id: BodyId|
                    lives(after.scene.bodies, id) ==> #[trigger] thing_at(after.scene.bodies, id)
                        == thing_at(scene.bodies, id)
                &&& after == (Worldly { scene: after.scene, ..world })
            }
        }),
{
    reveal(on_delete);
    a_deletion_takes_exactly_what_goes(world.scene, picks_of(held.selection));
}

/// Whether a pick is what another became.
pub open spec fn is_copy(made: Doubled, was: Pick, now: Pick) -> bool {
    match (was, now) {
        (Pick::Entity(a), Pick::Entity(b)) => made.entities.contains((a, b)),
        (Pick::Body(a), Pick::Body(b)) => made.bodies.contains((a, b)),
        (Pick::Joint(a), Pick::Joint(b)) => made.joints.contains((a, b)),
        _ => false,
    }
}

/// The copies of what was picked come in the order it was picked, each the copy
/// of its original, where everything picked was copied.
pub proof fn copies_come_in_order(made: Doubled, picks: Seq<Pick>)
    requires
        forall|i: int|
            0 <= i < picks.len() ==> match #[trigger] picks[i] {
                Pick::Entity(id) => was_copied(made.entities, id),
                Pick::Body(id) => was_copied(made.bodies, id),
                Pick::Joint(id) => was_copied(made.joints, id),
                _ => false,
            },
    ensures
        copies_of(made, picks).len() == picks.len(),
        forall|i: int|
            0 <= i < picks.len() ==> is_copy(
                made,
                #[trigger] picks[i],
                copies_of(made, picks)[i],
            ),
    decreases picks.len(),
{
    if picks.len() > 0 {
        let less = picks.drop_last();
        assert forall|i: int| 0 <= i < less.len() implies match #[trigger] less[i] {
            Pick::Entity(id) => was_copied(made.entities, id),
            Pick::Body(id) => was_copied(made.bodies, id),
            Pick::Joint(id) => was_copied(made.joints, id),
            _ => false,
        } by {
            assert(less[i] == picks[i]);
        }
        copies_come_in_order(made, less);
        let pick = picks[picks.len() - 1];
        match pick {
            Pick::Entity(id) => became_is_a_copy(made.entities, id),
            Pick::Body(id) => became_is_a_copy(made.bodies, id),
            Pick::Joint(id) => became_is_a_copy(made.joints, id),
            _ => {},
        }
        assert(is_copy(made, pick, copy_of(made, pick)->0));
        assert forall|i: int| 0 <= i < picks.len() implies is_copy(
            made,
            #[trigger] picks[i],
            copies_of(made, picks)[i],
        ) by {
            if i < less.len() {
                assert(less[i] == picks[i]);
            }
        }
    }
}

/// Hanging an entity off another is done exactly where both are alive, they are
/// not the same, and the other does not hang off it: then it hangs there and
/// stands where it is said to, and nothing else of it or of anything else
/// changes. Hung off nothing it stands on its own.
pub proof fn hanging_hangs(
    held: Held,
    world: Worldly,
    child: EntityId,
    parent: EntityId,
    inside: Transform,
)
    requires
        sound(world.scene.entities, MAX_ENTITIES as nat),
        rooted(world.scene.entities),
    ensures
        ({
            let entities = world.scene.entities;
            let (_, after, asked) = applied(
                held,
                world,
                Pressed::Hang { child, parent, inside },
            );
            let may = lives(entities, child) && (parent.some() ==> lives(entities, parent) && parent
                != child && !below(entities, parent, child));
            let was = thing_at(entities, child);
            let now = thing_at(after.scene.entities, child);
            &&& asked is None
            &&& !may ==> after == world
            &&& may ==> {
                &&& same_but_for(entities, after.scene.entities, child)
                &&& now.facts.parent == parent
                &&& now.facts.transform == inside
                &&& now == (Thing {
                    facts: Entity { parent, transform: inside, ..was.facts },
                    ..was
                })
                &&& after == (Worldly {
                    scene: Described { entities: after.scene.entities, ..world.scene },
                    ..world
                })
            }
        }),
{
    reveal(on_hang);
    let entities = world.scene.entities;
    the_walk_finds_it(entities, parent, child);
    if may_hang(entities, child, parent) {
        let was = thing_at(entities, child);
        let mid = hung(entities, child, parent);
        replaced_is_sound(
            entities,
            MAX_ENTITIES as nat,
            child,
            Thing { facts: Entity { parent, ..was.facts }, ..was },
        );
        let now = thing_at(mid, child);
        replaced_is_sound(
            mid,
            MAX_ENTITIES as nat,
            child,
            Thing { facts: Entity { transform: inside, ..now.facts }, ..now },
        );
        let after = stood(mid, child, inside);
        assert forall|other: Handle| #[trigger] lives(after, other) == lives(entities, other) by {
            assert(lives(mid, other) == lives(entities, other));
        }
        assert forall|other: Handle|
            lives(entities, other) && other != child implies #[trigger] thing_at(after, other)
            == thing_at(entities, other) by {
            assert(other.slot != child.slot);
        }
    }
}

/// Renaming a thing gives it the name and changes nothing else of it or of
/// anything else.
pub proof fn renaming_names(scene: Described, at: Pick, name: Seq<char>)
    requires
        sound(scene.entities, MAX_ENTITIES as nat),
        sound(scene.bodies, MAX_BODIES as nat),
        sound(scene.joints, MAX_JOINTS as nat),
    ensures
        ({
            let after = renamed(scene, at, name);
            match at {
                Pick::Entity(id) => {
                    &&& after == (Described { entities: after.entities, ..scene })
                    &&& same_but_for(scene.entities, after.entities, id)
                    &&& lives(scene.entities, id) ==> thing_at(after.entities, id) == (Thing {
                        name,
                        ..thing_at(scene.entities, id)
                    })
                },
                Pick::Body(id) => {
                    &&& after == (Described { bodies: after.bodies, ..scene })
                    &&& same_but_for(scene.bodies, after.bodies, id)
                    &&& lives(scene.bodies, id) ==> thing_at(after.bodies, id) == (Thing {
                        name,
                        ..thing_at(scene.bodies, id)
                    })
                },
                Pick::Joint(id) => {
                    &&& after == (Described { joints: after.joints, ..scene })
                    &&& same_but_for(scene.joints, after.joints, id)
                    &&& lives(scene.joints, id) ==> thing_at(after.joints, id) == (Thing {
                        name,
                        ..thing_at(scene.joints, id)
                    })
                },
                _ => after == scene,
            }
        }),
{
    match at {
        Pick::Entity(id) => {
            let put = Thing { name, ..thing_at(scene.entities, id) };
            replaced_is_sound(scene.entities, MAX_ENTITIES as nat, id, put);
            assert forall|other: Handle|
                lives(scene.entities, other) && other != id implies #[trigger] thing_at(
                renamed(scene, at, name).entities,
                other,
            ) == thing_at(scene.entities, other) by {
                if lives(scene.entities, id) {
                    assert(other.slot != id.slot);
                }
            }
        },
        Pick::Body(id) => {
            let put = Thing { name, ..thing_at(scene.bodies, id) };
            replaced_is_sound(scene.bodies, MAX_BODIES as nat, id, put);
            assert forall|other: Handle|
                lives(scene.bodies, other) && other != id implies #[trigger] thing_at(
                renamed(scene, at, name).bodies,
                other,
            ) == thing_at(scene.bodies, other) by {
                if lives(scene.bodies, id) {
                    assert(other.slot != id.slot);
                }
            }
        },
        Pick::Joint(id) => {
            let put = Thing { name, ..thing_at(scene.joints, id) };
            replaced_is_sound(scene.joints, MAX_JOINTS as nat, id, put);
            assert forall|other: Handle|
                lives(scene.joints, other) && other != id implies #[trigger] thing_at(
                renamed(scene, at, name).joints,
                other,
            ) == thing_at(scene.joints, other) by {
                if lives(scene.joints, id) {
                    assert(other.slot != id.slot);
                }
            }
        },
        _ => {},
    }
}

/// Moving an entity no body drives puts it where it is said to stand inside what
/// it hangs off, and changes nothing else; moving one that a body drives, or the
/// body, puts the body where it is said to stand in the world and the entity
/// where it is said to stand inside, and changes nothing else.
pub proof fn moving_moves_nothing_else(
    scene: Described,
    at: Pick,
    put: Transform,
    inside: Transform,
)
    requires
        sound(scene.entities, MAX_ENTITIES as nat),
        sound(scene.bodies, MAX_BODIES as nat),
    ensures
        ({
            let after = moved(scene, at, put, inside);
            &&& after == (Described {
                entities: after.entities,
                bodies: after.bodies,
                ..scene
            })
            &&& match at {
                Pick::Entity(id) => {
                    &&& (forall|body: BodyId| #[trigger]
                        lives(scene.bodies, body) ==> thing_at(scene.bodies, body).facts.entity
                            != id) ==> {
                        &&& after.bodies == scene.bodies
                        &&& same_but_for(scene.entities, after.entities, id)
                        &&& lives(scene.entities, id) ==> thing_at(after.entities, id) == (Thing {
                            facts: Entity {
                                transform: inside,
                                ..thing_at(scene.entities, id).facts
                            },
                            ..thing_at(scene.entities, id)
                        })
                    }
                },
                Pick::Body(body) => {
                    let id = thing_at(scene.bodies, body).facts.entity;
                    &&& !lives(scene.bodies, body) ==> after == scene
                    &&& lives(scene.bodies, body) ==> {
                        &&& same_but_for(scene.bodies, after.bodies, body)
                        &&& thing_at(after.bodies, body) == (Thing {
                            facts: Body { transform: put, ..thing_at(scene.bodies, body).facts },
                            ..thing_at(scene.bodies, body)
                        })
                        &&& same_but_for(scene.entities, after.entities, id)
                        &&& lives(scene.entities, id) ==> thing_at(after.entities, id) == (Thing {
                            facts: Entity {
                                transform: inside,
                                ..thing_at(scene.entities, id).facts
                            },
                            ..thing_at(scene.entities, id)
                        })
                    }
                },
                _ => after == scene,
            }
        }),
{
    match at {
        Pick::Entity(id) => {
            crate::section::the_driver_drives(scene.bodies, id);
            if driver_of(scene.bodies, id) is None {
                standing_elsewhere(scene.entities, id, inside);
            }
        },
        Pick::Body(body) => {
            let was = thing_at(scene.bodies, body);
            let id = was.facts.entity;
            standing_elsewhere(scene.entities, id, inside);
            let set = Thing { facts: Body { transform: put, ..was.facts }, ..was };
            replaced_is_sound(scene.bodies, MAX_BODIES as nat, body, set);
            assert forall|other: Handle|
                lives(scene.bodies, other) && other != body implies #[trigger] thing_at(
                moved(scene, at, put, inside).bodies,
                other,
            ) == thing_at(scene.bodies, other) by {
                if lives(scene.bodies, body) {
                    assert(other.slot != body.slot);
                }
            }
        },
        _ => {},
    }
}

/// An entity that stands elsewhere is the same but for that, and everything else
/// is as it was.
proof fn standing_elsewhere(entities: Entities, id: EntityId, inside: Transform)
    requires
        sound(entities, MAX_ENTITIES as nat),
    ensures
        same_but_for(entities, stood(entities, id, inside), id),
        lives(entities, id) ==> thing_at(stood(entities, id, inside), id) == (Thing {
            facts: Entity { transform: inside, ..thing_at(entities, id).facts },
            ..thing_at(entities, id)
        }),
{
    let was = thing_at(entities, id);
    let put = Thing { facts: Entity { transform: inside, ..was.facts }, ..was };
    replaced_is_sound(entities, MAX_ENTITIES as nat, id, put);
    assert forall|other: Handle| lives(entities, other) && other != id implies #[trigger] thing_at(
        stood(entities, id, inside),
        other,
    ) == thing_at(entities, other) by {
        if lives(entities, id) {
            assert(other.slot != id.slot);
        }
    }
}

/// The presses that need nothing but a word do what they say and nothing else:
/// the tool is switched and the brush put away, the brush is put out or away and
/// made as wide and as hard as it may be, the name field takes the keyboard, a
/// scene is written, opened or opened again, and a source is opened.
pub proof fn words_do_what_they_say(
    held: Held,
    world: Worldly,
    tool: Tool,
    out: bool,
    radius: u32,
    strength: u32,
    name: Seq<char>,
)
    ensures
        applied(held, world, Pressed::Tool(tool)) == (
            Held { tool, brushing: false, ..held },
            world,
            None::<Asked>,
        ),
        applied(held, world, Pressed::Brush(out)) == (
            Held { brushing: out, ..held },
            world,
            None::<Asked>,
        ),
        applied(held, world, Pressed::Stroke { radius, strength }).1 == world,
        applied(held, world, Pressed::Stroke { radius, strength }).0 == (Held {
            stroke: applied(held, world, Pressed::Stroke { radius, strength }).0.stroke,
            ..held
        }),
        applied(held, world, Pressed::Rename) == (
            Held { rename: true, ..held },
            world,
            None::<Asked>,
        ),
        applied(held, world, Pressed::Write(name)) == (
            Held { scene: name, ..held },
            world,
            Some(Asked::Run("scene.write "@ + name)),
        ),
        applied(held, world, Pressed::Open(name)) == (held, world, Some(Asked::Open(name))),
        applied(held, world, Pressed::Reopen(name)) == (held, world, Some(Asked::Reopen(name))),
        applied(held, world, Pressed::Code(name)) == (
            held,
            world,
            Some(Asked::Run("code.open "@ + name)),
        ),
{
    reveal(on_word);
}

/// A brush asked to be as wide and as hard as it may be is exactly that, and one
/// asked for more or less is held at the widest, the narrowest, the hardest or
/// the softest it may be: from a quarter to two hundred and fifty-six wide, and
/// from nothing to a whole hard.
pub proof fn a_brush_is_held_inside(held: Held, world: Worldly, radius: u32, strength: u32)
    ensures
        ({
            let stroke = applied(held, world, Pressed::Stroke { radius, strength }).0.stroke;
            &&& crate::fraction::less(radius, 0x3e80_0000) ==> stroke.radius == 0x3e80_0000u32
            &&& crate::fraction::less(0x4380_0000, radius) ==> stroke.radius == 0x4380_0000u32
            &&& !crate::fraction::less(radius, 0x3e80_0000) && !crate::fraction::less(
                0x4380_0000,
                radius,
            ) ==> stroke.radius == radius
            &&& crate::fraction::less(strength, 0) ==> stroke.strength == 0
            &&& crate::fraction::less(0x3f80_0000, strength) ==> stroke.strength == 0x3f80_0000u32
            &&& !crate::fraction::less(strength, 0) && !crate::fraction::less(
                0x3f80_0000,
                strength,
            ) ==> stroke.strength == strength
        }),
{
    reveal(on_word);
}

/// Selecting selects one thing and nothing else, or nothing; a toggle adds what
/// was not selected as the primary and takes out what was, and changes nothing
/// else; and neither touches the world.
pub proof fn selecting_and_toggling(held: Held, world: Worldly, pick: Pick)
    requires
        no_pair(held.selection),
    ensures
        ({
            let one = applied(held, world, Pressed::Select(pick));
            let more = applied(held, world, Pressed::Toggle(pick));
            let was = picks_of(held.selection);
            let now = picks_of(more.0.selection);
            &&& one.1 == world && one.2 is None
            &&& one.0 == (Held { selection: one.0.selection, ..held })
            &&& pick == Pick::Nothing ==> one.0.selection.len() == 0
            &&& pick != Pick::Nothing ==> picks_of(one.0.selection) == seq![pick]
            &&& more.1 == world && more.2 is None
            &&& more.0 == (Held { selection: more.0.selection, ..held })
            &&& pick == Pick::Nothing ==> more.0.selection == held.selection
            &&& pick != Pick::Nothing && !was.contains(pick) ==> now == was.push(pick)
            &&& pick != Pick::Nothing && was.contains(pick) ==> {
                &&& !now.contains(pick)
                &&& now.len() + 1 == was.len()
                &&& forall|other: Pick|
                    other != pick ==> (#[trigger] now.contains(other) == was.contains(other))
            }
        }),
{
    reveal(on_word);
    let selection = held.selection;
    let was = picks_of(selection);
    let one = applied(held, world, Pressed::Select(pick)).0.selection;
    let now = picks_of(toggled(selection, world, pick));
    if pick != Pick::Nothing {
        assert(picks_of(one) =~= seq![pick]);
        index_is_first(selection, pick);
        match index_of(selection, pick) {
            None => {
                assert(!was.contains(pick)) by {
                    if was.contains(pick) {
                        let k = choose|k: int| 0 <= k < was.len() && was[k] == pick;
                        assert(selection[k].0 == pick);
                    }
                }
                assert(now =~= was.push(pick));
            },
            Some(index) => {
                assert(was[index] == pick);
                assert(now =~= was.remove(index));
                assert(!now.contains(pick)) by {
                    if now.contains(pick) {
                        let k = choose|k: int| 0 <= k < now.len() && now[k] == pick;
                        let from = if k < index {
                            k
                        } else {
                            k + 1
                        };
                        assert(was[from] == pick);
                        assert(selection[from].0 == selection[index].0);
                        if from < index {
                            assert(selection[from].0 != selection[index].0);
                        } else {
                            assert(selection[index].0 != selection[from].0);
                        }
                    }
                }
                assert forall|other: Pick| other != pick implies (#[trigger] now.contains(other)
                    == was.contains(other)) by {
                    if was.contains(other) {
                        let k = choose|k: int| 0 <= k < was.len() && was[k] == other;
                        if k < index {
                            assert(now[k] == other);
                        } else {
                            assert(now[k - 1] == other);
                        }
                    }
                    if now.contains(other) {
                        let k = choose|k: int| 0 <= k < now.len() && now[k] == other;
                        if k < index {
                            assert(was[k] == other);
                        } else {
                            assert(was[k + 1] == other);
                        }
                    }
                }
            },
        }
    }
}

/// Every press that writes to an edited world opens a step back under a name of
/// its own.
pub proof fn every_step_has_its_name(held: Held, world: Worldly, change: Pressed)
    requires
        world.editing,
        held.past.open is None,
        match change {
            Pressed::Delete => held.selection.len() > 0,
            Pressed::Duplicate => held.selection.len() > 0,
            Pressed::Bake(filed, _) => stem_of(trimmed(filed)).len() > 0,
            Pressed::Light(filed) => stem_of(trimmed(filed)).len() > 0,
            Pressed::Hang { .. } => true,
            Pressed::Hide { .. } => true,
            Pressed::Water { .. } => true,
            Pressed::Block(_) => true,
            Pressed::Decal(_) => true,
            Pressed::Drop { .. } => true,
            _ => false,
        },
    ensures
        ({
            let then = applied(held, world, change).0;
            &&& then.past.open is Some
            &&& then.past.open->0.before == world.scene
            &&& then.past.records == held.past.records
            &&& then.past.open->0.label == match change {
                Pressed::Delete => "delete"@,
                Pressed::Duplicate => "duplicate"@,
                Pressed::Hang { .. } => "hang"@,
                Pressed::Hide { .. } => "hide"@,
                Pressed::Water { .. } => "water"@,
                Pressed::Block(_) => "block"@,
                Pressed::Decal(_) => "decal"@,
                Pressed::Bake(_, _) => "bake"@,
                Pressed::Light(_) => "bake light"@,
                _ => "drop"@,
            }
        }),
{
    reveal(on_delete);
    reveal(on_duplicate);
    reveal(on_hang);
    reveal(on_hide);
    reveal(on_water);
    reveal(on_block);
    reveal(on_decal);
    reveal(on_bake);
    reveal(on_light);
    reveal(on_drop);
}

/// Playing holds the world it was pressed in for one step back over the play, and
/// asks for the game to run; stopping asks for the world to be edited and writes
/// nothing down.
pub proof fn playing_is_asked_for(held: Held, world: Worldly)
    requires
        held.past.open is None,
        !held.past.holding,
    ensures
        ({
            let (then, after, asked) = applied(held, world, Pressed::Edit(false));
            &&& after == world
            &&& asked == Some(Asked::Mode(false))
            &&& then.past.holding
            &&& then.past.open is Some
            &&& then.past.open->0.label == "play"@
            &&& then.past.open->0.before == world.scene
            &&& then.past.records == held.past.records
            &&& then == (Held { past: then.past, ..held })
        }),
        applied(held, world, Pressed::Edit(true)) == (held, world, Some(Asked::Mode(true))),
{
    reveal(on_edit);
}

/// Baking and lighting go by the last part of the write field, and do nothing
/// where that is nothing: a bake that made something asks for it to be written
/// out, and the light is asked for in any case, the scene taking its name.
pub proof fn baking_goes_by_the_write_field(
    held: Held,
    world: Worldly,
    filed: Seq<char>,
    walls: Seq<crate::bake::Walls>,
)
    ensures
        ({
            let name = stem_of(trimmed(filed));
            let picks = picks_of(held.selection);
            let sides = crate::bake::sides_of(world.scene, picks, walls);
            let (after, made) = crate::bake::baked_world(world, picks, sides, name);
            let bake = applied(held, world, Pressed::Bake(filed, walls));
            let light = applied(held, world, Pressed::Light(filed));
            &&& name.len() == 0 ==> bake == (held, world, None::<Asked>) && light == (
                held,
                world,
                None::<Asked>,
            )
            &&& name.len() > 0 ==> {
                &&& bake.1 == after
                &&& made.len() > 0 ==> bake.2 == Some(Asked::Run("blocks.write "@ + name))
                    && bake.0.selection == selected_all(after, made)
                &&& made.len() == 0 ==> bake.2 is None && bake.0.selection == held.selection
                &&& light.1 == world
                &&& light.2 == Some(Asked::Run("light.bake "@ + name))
                &&& light.0.scene == name
                &&& light.0.selection == held.selection
            }
        }),
{
    reveal(on_bake);
    reveal(on_light);
}

/// A dropped scene is laid down by whoever runs the editor; a dropped mesh or
/// model is put in the world and selected; anything else dropped does nothing to
/// the world.
pub proof fn dropping_goes_by_the_kind(
    held: Held,
    world: Worldly,
    name: Seq<char>,
    kind: Kind,
    standing: Transform,
)
    ensures
        ({
            let (then, after, asked) = applied(held, world, Pressed::Drop { name, kind, standing });
            let (want, made) = dropped(world, name, kind, standing);
            &&& after == want
            &&& asked == if kind == Kind::Scene {
                Some(Asked::Lay(name))
            } else {
                None
            }
            &&& kind != Kind::Mesh && kind != Kind::Model ==> after == world && then.selection
                == held.selection
            &&& made.len() > 0 ==> then.selection == selected_all(after, made)
            &&& made.len() == 0 ==> then.selection == held.selection
        }),
{
    reveal(on_drop);
}

/// A group is asked for exactly where an entity is selected, and groups are asked
/// to be taken apart exactly where one is; neither changes anything yet.
pub proof fn grouping_is_asked_for(held: Held, world: Worldly)
    ensures
        applied(held, world, Pressed::Group).0 == held,
        applied(held, world, Pressed::Group).1 == world,
        applied(held, world, Pressed::Group).2 == if exists|i: int|
            0 <= i < held.selection.len() && (#[trigger] held.selection[i]).0 is Entity {
            Some(Asked::Group)
        } else {
            None
        },
        applied(held, world, Pressed::Ungroup).0 == held,
        applied(held, world, Pressed::Ungroup).1 == world,
        applied(held, world, Pressed::Ungroup).2 == if exists|i: int|
            0 <= i < held.selection.len() && (#[trigger] held.selection[i]).0 is Entity && lives(
                world.scene.entities,
                held.selection[i].0->Entity_0,
            ) && thing_at(world.scene.entities, held.selection[i].0->Entity_0).facts.group {
            Some(Asked::Ungroup)
        } else {
            None
        },
{
    reveal(on_group);
    reveal(on_ungroup);
    let selection = held.selection;
    let picks = picks_of(selection);
    let entities = world.scene.entities;
    if crate::panels::any_entity(picks) {
        let i = choose|i: int| 0 <= i < picks.len() && (#[trigger] picks[i]) is Entity;
        assert(selection[i].0 is Entity);
    }
    if exists|i: int| 0 <= i < selection.len() && (#[trigger] selection[i]).0 is Entity {
        let i = choose|i: int| 0 <= i < selection.len() && (#[trigger] selection[i]).0 is Entity;
        assert(picks[i] is Entity);
    }
    if crate::panels::any_group(entities, picks) {
        let i = choose|i: int|
            0 <= i < picks.len() && (#[trigger] picks[i]) is Entity && crate::group::group_at(
                entities,
                picks[i]->Entity_0,
            );
        assert(selection[i].0 is Entity);
    }
    if exists|i: int|
        0 <= i < selection.len() && (#[trigger] selection[i]).0 is Entity && lives(
            entities,
            selection[i].0->Entity_0,
        ) && thing_at(entities, selection[i].0->Entity_0).facts.group {
        let i = choose|i: int|
            0 <= i < selection.len() && (#[trigger] selection[i]).0 is Entity && lives(
                entities,
                selection[i].0->Entity_0,
            ) && thing_at(entities, selection[i].0->Entity_0).facts.group;
        assert(picks[i] is Entity);
    }
}

/// One key alone asks for one thing: with the command key, Z steps back and with
/// a shift forward, Y steps forward, D duplicates, G groups and with a shift takes
/// groups apart; without it, delete deletes and F2 renames. While a text field is
/// taking typing no key asks for anything.
pub proof fn one_key_asks_for_one_thing(press: Press)
    ensures
        keys_asked(true, seq![press]) == Seq::<Pressed>::empty(),
        keys_asked(false, Seq::empty()) == Seq::<Pressed>::empty(),
        press.key == Key::Z && press.command && !press.shift ==> keys_asked(false, seq![press])
            == seq![Pressed::Undo],
        press.key == Key::Z && press.command && press.shift ==> keys_asked(false, seq![press])
            == seq![Pressed::Redo],
        press.key == Key::Y && press.command ==> keys_asked(false, seq![press])
            == seq![Pressed::Redo],
        press.key == Key::D && press.command ==> keys_asked(false, seq![press])
            == seq![Pressed::Duplicate],
        press.key == Key::G && press.command && !press.shift ==> keys_asked(false, seq![press])
            == seq![Pressed::Group],
        press.key == Key::G && press.command && press.shift ==> keys_asked(false, seq![press])
            == seq![Pressed::Ungroup],
        press.key == Key::Delete && !press.command ==> keys_asked(false, seq![press])
            == seq![Pressed::Delete],
        press.key == Key::F2 && !press.command ==> keys_asked(false, seq![press])
            == seq![Pressed::Rename],
        press.key == Key::Other ==> keys_asked(false, seq![press]) == Seq::<Pressed>::empty(),
        !press.command && (press.key == Key::Z || press.key == Key::Y || press.key == Key::D
            || press.key == Key::G) ==> keys_asked(false, seq![press]) == Seq::<Pressed>::empty(),
{
    let one = seq![press];
    assert(one[0] == press);
    assert(keys_asked(false, one) =~= keys_asked(false, one));
    assert(Seq::<Pressed>::empty().push(Pressed::Delete) =~= seq![Pressed::Delete]);
    assert(Seq::<Pressed>::empty().push(Pressed::Rename) =~= seq![Pressed::Rename]);
    assert(Seq::<Pressed>::empty().push(Pressed::Undo) =~= seq![Pressed::Undo]);
    assert(Seq::<Pressed>::empty().push(Pressed::Redo) =~= seq![Pressed::Redo]);
    assert(Seq::<Pressed>::empty().push(Pressed::Duplicate) =~= seq![Pressed::Duplicate]);
    assert(Seq::<Pressed>::empty().push(Pressed::Group) =~= seq![Pressed::Group]);
    assert(Seq::<Pressed>::empty().push(Pressed::Ungroup) =~= seq![Pressed::Ungroup]);
}

/// Duplicating selects the copies of what was selected, in the order it was
/// selected, where everything selected was copied and nothing was selected
/// twice; with nothing selected it does nothing.
pub proof fn duplicate_selects_the_copies(held: Held, world: Worldly)
    requires
        no_pair(held.selection),
        ({
            let made = doubled(world.scene, picks_of(held.selection));
            let picks = picks_of(held.selection);
            forall|i: int|
                0 <= i < picks.len() ==> match #[trigger] picks[i] {
                    Pick::Entity(id) => was_copied(made.entities, id),
                    Pick::Body(id) => was_copied(made.bodies, id),
                    Pick::Joint(id) => was_copied(made.joints, id),
                    _ => false,
                }
        }),
        copies_of(
            doubled(world.scene, picks_of(held.selection)),
            picks_of(held.selection),
        ).no_duplicates(),
    ensures
        ({
            let (then, after, asked) = applied(held, world, Pressed::Duplicate);
            let picks = picks_of(held.selection);
            let made = doubled(world.scene, picks);
            let now = picks_of(then.selection);
            &&& asked is None
            &&& held.selection.len() == 0 ==> then == held && after == world
            &&& held.selection.len() > 0 ==> {
                &&& after == (Worldly { scene: made.scene, ..world })
                &&& now.len() == picks.len()
                &&& forall|i: int|
                    0 <= i < picks.len() ==> is_copy(made, #[trigger] picks[i], now[i])
            }
        }),
{
    reveal(on_duplicate);
    let picks = picks_of(held.selection);
    let made = doubled(world.scene, picks);
    copies_come_in_order(made, picks);
    let copies = copies_of(made, picks);
    let after = Worldly { scene: made.scene, ..world };
    assert(!copies.contains(Pick::Nothing)) by {
        if copies.contains(Pick::Nothing) {
            let k = choose|k: int| 0 <= k < copies.len() && copies[k] == Pick::Nothing;
            assert(is_copy(made, picks[k], copies[k]));
        }
    }
    picking_several_selects_them(after, copies);
}

/// Selecting what is inside an entity selects every living entity below it and
/// nothing else, and changes nothing else.
pub proof fn inside_is_everything_below(held: Held, world: Worldly, entity: EntityId)
    requires
        sound(world.scene.entities, MAX_ENTITIES as nat),
        rooted(world.scene.entities),
        lives(world.scene.entities, entity),
    ensures
        ({
            let (then, after, asked) = applied(held, world, Pressed::Inside(entity));
            let now = picks_of(then.selection);
            &&& after == world
            &&& asked is None
            &&& then == (Held { selection: then.selection, ..held })
            &&& forall|pick: Pick| #[trigger]
                now.contains(pick) ==> pick is Entity && lives(
                    world.scene.entities,
                    pick->Entity_0,
                ) && below(world.scene.entities, pick->Entity_0, entity)
            &&& forall|id: EntityId|
                lives(world.scene.entities, id) && below(world.scene.entities, id, entity)
                    ==> #[trigger] now.contains(Pick::Entity(id))
        }),
{
    reveal(on_inside);
    let entities = world.scene.entities;
    let ids = crate::tree::branch(entities, entity);
    let picks = crate::bake::as_picks(ids);
    let wanted = |child: EntityId| crate::tree::hangs_under(entities, child, entity);
    living_resolves(entities);
    crate::group::filtered_in_order(living(entities), wanted);
    assert(picks.no_duplicates()) by {
        assert forall|i: int, j: int|
            0 <= i < picks.len() && 0 <= j < picks.len() && i != j implies picks[i] != picks[j] by {
            if i < j {
                assert(ids[i].slot < ids[j].slot);
            } else {
                assert(ids[j].slot < ids[i].slot);
            }
        }
    }
    assert(!picks.contains(Pick::Nothing));
    picking_several_selects_them(world, picks);
    assert forall|pick: Pick| #[trigger] picks.contains(pick) implies pick is Entity && lives(
        entities,
        pick->Entity_0,
    ) && below(entities, pick->Entity_0, entity) by {
        let k = choose|k: int| 0 <= k < picks.len() && picks[k] == pick;
        assert(ids.contains(ids[k]));
        crate::edit::descendants_hang_below(entities, entity, ids[k]);
    }
    assert forall|id: EntityId|
        lives(entities, id) && below(entities, id, entity) implies #[trigger] picks.contains(
        Pick::Entity(id),
    ) by {
        crate::edit::descendants_hang_below(entities, entity, id);
        let k = choose|k: int| 0 <= k < ids.len() && ids[k] == id;
        assert(picks[k] == Pick::Entity(id));
    }
}

/// Inspecting an asset selects the material of that name, or the model where no
/// material has it, and does nothing for a name neither has.
pub proof fn inspecting_selects_the_asset(held: Held, world: Worldly, name: Seq<char>)
    requires
        world.materials.len() <= u32::MAX,
        world.models.len() <= u32::MAX,
    ensures
        ({
            let (then, after, asked) = applied(held, world, Pressed::Inspect(name));
            let coats = exists|i: int|
                1 <= i < world.materials.len() && (#[trigger] world.materials[i]).name == name;
            let shapes = exists|i: int|
                1 <= i < world.models.len() && (#[trigger] world.models[i]).name == name;
            &&& after == world
            &&& asked is None
            &&& then == (Held { selection: then.selection, ..held })
            &&& coats ==> then.selection.len() == 1 && then.selection[0].0 is Material
                && world.materials[then.selection[0].0->Material_0 as int].name == name
            &&& !coats && shapes ==> then.selection.len() == 1 && then.selection[0].0 is Model
                && world.models[then.selection[0].0->Model_0 as int].name == name
            &&& !coats && !shapes ==> then == held
        }),
{
    reveal(on_inspect);
    numbered_is_first(world.materials, name, 1);
    numbered_is_first(world.models, name, 1);
}

/// Renaming an asset asks for its file to be renamed, and every scene open on it
/// is called what the file is called then: the same folder, and the new last
/// part. Every other scene keeps its name, and nothing else changes.
pub proof fn a_renamed_asset_is_followed(
    held: Held,
    world: Worldly,
    name: Seq<char>,
    to: Seq<char>,
    folder: Seq<char>,
    last: Seq<char>,
)
    requires
        !last.contains('/'),
        name == folder + seq!['/'] + last,
    ensures
        ({
            let (then, after, asked) = applied(held, world, Pressed::RenameAsset(name, to));
            let called = folder + seq!['/'] + to;
            &&& after == world
            &&& asked == Some(Asked::Run("asset.rename "@ + name + " "@ + to))
            &&& held.scene == name ==> then.scene == called
            &&& held.scene != name ==> then.scene == held.scene
            &&& then.shelf.len() == held.shelf.len()
            &&& forall|i: int|
                0 <= i < held.shelf.len() ==> (#[trigger] then.shelf[i]).past == held.shelf[i].past
                    && then.shelf[i].scene == held.shelf[i].scene && then.shelf[i].name == if (
                held.shelf[i].name == name) {
                    called
                } else {
                    held.shelf[i].name
                }
            &&& then == (Held { scene: then.scene, shelf: then.shelf, ..held })
        }),
{
    reveal(on_rename_asset);
    crate::make::the_last_part_is_the_stem(folder, last);
    let stem = stem_of(name);
    assert(name.take(name.len() - stem.len()) + to =~= folder + seq!['/'] + to);
}

/// A step back puts back the world before the last thing done and a step forward
/// right after it the world it was taken from; neither touches the world on
/// screen before it is put back, or anything else the panels hold.
pub proof fn stepping_back_and_forward(held: Held, world: Worldly, later: Worldly)
    requires
        past_sound(held.past),
        held.past.open is None,
        held.past.done > 0,
    ensures
        ({
            let (then, after, asked) = applied(held, world, Pressed::Undo);
            let (again, still, none) = applied(then, later, Pressed::Redo);
            let deed = held.past.records[held.past.done - 1];
            &&& after == world && asked is None && still == later && none is None
            &&& then.restore == Some(deed.before)
            &&& again.restore == Some(deed.after)
            &&& again.past.done == held.past.done
            &&& again.past.records == held.past.records
            &&& then == (Held { restore: then.restore, past: then.past, ..held })
        }),
{
    reveal(on_undo);
    reveal(on_redo);
}

/// Making a group of what is selected selects the group and nothing else, and is
/// one step back over the world as it was; where no entity is selected nothing
/// happens.
pub proof fn a_group_that_was_made_is_selected(
    held: Held,
    world: Worldly,
    standing: Transform,
    insides: Seq<(EntityId, Transform)>,
)
    requires
        world.editing,
        held.past.open is None,
    ensures
        ({
            let (then, after) = with_group(held, world, standing, insides);
            let picks = picks_of(held.selection);
            let any = exists|i: int| 0 <= i < picks.len() && (#[trigger] picks[i]) is Entity;
            let group = next_handle(world.scene.entities, MAX_ENTITIES as nat);
            &&& !any ==> then == held && after == world
            &&& any && group.some() ==> picks_of(then.selection) == seq![Pick::Entity(group)]
            &&& any && !group.some() ==> then.selection == held.selection && after == world
            &&& any ==> {
                &&& then.past.open is Some
                &&& then.past.open->0.label == "group"@
                &&& then.past.open->0.before == world.scene
            }
            &&& after == (Worldly {
                scene: Described { entities: after.scene.entities, ..world.scene },
                ..world
            })
        }),
{
    let (then, after) = with_group(held, world, standing, insides);
    let group = next_handle(world.scene.entities, MAX_ENTITIES as nat);
    let made = seq![Pick::Entity(group)];
    if group.some() {
        assert(!made.contains(Pick::Nothing));
        picking_several_selects_them(after, made);
    }
}

/// Taking a group apart selects everything that hung right off it and nothing
/// else, and is one step back over the world as it was.
pub proof fn what_was_in_a_group_is_selected(
    held: Held,
    world: Worldly,
    insides: Seq<(EntityId, Transform)>,
    group: EntityId,
)
    requires
        sound(world.scene.entities, MAX_ENTITIES as nat),
        rooted(world.scene.entities),
        world.editing,
        held.past.open is None,
        picks_of(held.selection) == seq![Pick::Entity(group)],
        lives(world.scene.entities, group),
        thing_at(world.scene.entities, group).facts.group,
    ensures
        ({
            let (then, after) = crate::panels::without_groups(held, world, insides);
            let now = picks_of(then.selection);
            &&& !lives(after.scene.entities, group)
            &&& forall|id: EntityId|
                lives(world.scene.entities, id) && parent_of(world.scene.entities, id) == group
                    ==> #[trigger] now.contains(Pick::Entity(id))
            &&& forall|pick: Pick| #[trigger]
                now.contains(pick) ==> pick is Entity && parent_of(
                    world.scene.entities,
                    pick->Entity_0,
                ) == group
            &&& then.past.open is Some
            &&& then.past.open->0.label == "ungroup"@
            &&& then.past.open->0.before == world.scene
        }),
{
    let entities = world.scene.entities;
    let picks = picks_of(held.selection);
    let (then, after) = crate::panels::without_groups(held, world, insides);
    assert(picks[0] == Pick::Entity(group));
    reveal_with_fuel(crate::group::ungrouped, 2);
    let ids = crate::group::children_of(entities, group);
    let (apart, released) = crate::group::ungrouped(entities, picks, insides, 1);
    assert(released =~= ids);
    crate::group::children_are_distinct(entities, group);
    living_resolves(entities);
    let wanted = |child: EntityId| parent_of(entities, child) == group;
    crate::edit::filter_contains(living(entities), wanted);
    crate::tree::nothing_hangs_off_itself(entities, group);
    assert forall|i: int| 0 <= i < ids.len() implies lives(apart, #[trigger] ids[i]) by {
        assert(ids.contains(ids[i]));
        assert(wanted(ids[i]));
        assert(living(entities).contains(ids[i]));
        if ids[i] == group {
            assert(crate::tree::above(entities, group, 1) == group) by {
                reveal_with_fuel(crate::tree::above, 2);
            }
        }
        crate::group::a_group_taken_apart_is_gone(entities, group, insides, ids[i]);
    }
    all_are_still_there(apart, ids);
    let there = crate::group::still_there(apart, ids);
    assert(!there.contains(Pick::Nothing));
    assert(there.no_duplicates());
    picking_several_selects_them(after, there);
    assert forall|id: EntityId|
        lives(entities, id) && parent_of(entities, id) == group implies #[trigger] there.contains(
        Pick::Entity(id),
    ) by {
        assert(wanted(id));
        assert(ids.contains(id));
        let k = choose|k: int| 0 <= k < ids.len() && ids[k] == id;
        assert(there[k] == Pick::Entity(id));
    }
    assert forall|pick: Pick| #[trigger] there.contains(pick) implies pick is Entity && parent_of(
        entities,
        pick->Entity_0,
    ) == group by {
        let k = choose|k: int| 0 <= k < there.len() && there[k] == pick;
        assert(ids.contains(ids[k]));
        assert(wanted(ids[k]));
    }
    crate::group::taking_apart_changes_places_only(entities, group, insides, Handle::nothing());
}

/// Where several entities are alive, all of them are still there.
proof fn all_are_still_there(entities: Entities, ids: Seq<EntityId>)
    requires
        forall|i: int| 0 <= i < ids.len() ==> lives(entities, #[trigger] ids[i]),
    ensures
        crate::group::still_there(entities, ids).len() == ids.len(),
        forall|i: int|
            0 <= i < ids.len() ==> #[trigger] crate::group::still_there(entities, ids)[i]
                == Pick::Entity(ids[i]),
    decreases ids.len(),
{
    if ids.len() > 0 {
        let less = ids.drop_last();
        assert forall|i: int| 0 <= i < less.len() implies lives(entities, #[trigger] less[i]) by {
            assert(less[i] == ids[i]);
        }
        all_are_still_there(entities, less);
        assert(lives(entities, ids[ids.len() - 1]));
    }
}

} // verus!
