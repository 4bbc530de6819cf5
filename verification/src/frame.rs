//! One frame of the editor, in the order it happens: what the panels look at,
//! what was pressed, and each press done in turn.
//!
//! Some presses ask something of whoever runs the editor. The frame stops at
//! each of them, so that it is answered before the next press is done.

use vstd::prelude::*;
use crate::bake::{a_bake_registers_few, blocks_give_few_faces, blocks_of, sides_of};
use crate::change::{presses, Change, Pressed};
use crate::group::around;
use crate::make::stem_of;
use crate::panels::{
    applied, first_known, followed, keys_asked, on_bake, on_block, on_decal, on_delete, on_drop,
    on_duplicate, on_edit, on_group, on_hang, on_hide, on_inside, on_inspect, on_light, on_redo,
    on_rename_asset, on_show, on_shut, on_undo, on_ungroup, on_water, on_word, request_view,
    stepped, Asked, Held, Panels, Press, Request,
};
use crate::planted::{a_press_keeps_everything_planted, planted};
use crate::select::{only, picks_of, refreshed, toggled, Pick};
use crate::table::texts;
use crate::text::trimmed;
use crate::world::{World, Worldly};

verus! {

/// A click in the picture.
#[derive(Clone, Copy, Debug, PartialEq, Eq, Structural)]
pub struct Click {
    /// What is under it.
    pub pick: Pick,
    /// Whether it is exactly that which is meant, rather than the group
    /// around it.
    pub alt: bool,
    /// Whether it adds to what is selected.
    pub command: bool,
}

/// What the panels hold once a frame has begun: what was selected found
/// again, play followed, the click taken and the name field answered.
pub open spec fn looked(held: Held, world: Worldly, click: Option<Click>) -> Held {
    let begun = followed(
        Held { selection: refreshed(held.selection, world), ..held },
        world,
    );
    let clicked = match click {
        None => begun,
        Some(click) => {
            let taken = if click.alt {
                click.pick
            } else {
                around(world.scene.entities, click.pick)
            };
            Held {
                selection: if click.command {
                    toggled(begun.selection, world, taken)
                } else {
                    only(world, taken)
                },
                ..begun
            }
        },
    };
    Held { rename: false, ..clicked }
}

/// Begins a frame: before anything is drawn, so that what was clicked out in
/// the world is selected when its row is drawn. Whether the name field is to
/// take the keyboard.
pub fn look(panels: &mut Panels, world: &World, click: Option<Click>) -> (result: bool)
    requires
        old(panels).wf(),
        world.wf(),
    ensures
        final(panels).wf(),
        final(panels).view() == looked(old(panels).view(), world.view(), click),
        result == old(panels).view().rename,
{
    panels.start(world);
    match click {
        None => {},
        Some(click) => {
            panels.pick(world, click.pick, click.alt, click.command);
        },
    }
    panels.take_rename()
}

/// The presses of a frame, in the order they are done: what was pressed on
/// the panels, a scene of the last run the compiler has caught up with, what
/// the keyboard asked for, and what was dropped on the picture.
pub open spec fn queued(
    held: Held,
    drawn: Seq<Pressed>,
    known: Seq<Seq<char>>,
    keyed: Seq<Pressed>,
    dropped: Seq<Pressed>,
) -> Seq<Pressed> {
    let caught = match first_known(held.waiting, known) {
        None => Seq::empty(),
        Some(index) => seq![Pressed::Reopen(held.waiting[index])],
    };
    drawn + caught + keyed + dropped
}

/// Gathers the presses of a frame.
pub fn gather(
    panels: &mut Panels,
    drawn: Vec<Change>,
    known: &Vec<String>,
    typing: bool,
    pressed: &Vec<Press>,
    dropped: Vec<Change>,
) -> (result: Vec<Change>)
    requires
        old(panels).wf(),
    ensures
        final(panels).wf(),
        presses(result@) == queued(
            old(panels).view(),
            presses(drawn@),
            texts(known@),
            keys_asked(typing, pressed@),
            presses(dropped@),
        ),
        final(panels).view() == match first_known(old(panels).view().waiting, texts(known@)) {
            None => old(panels).view(),
            Some(index) => Held {
                waiting: old(panels).view().waiting.remove(index),
                ..old(panels).view()
            },
        },
{
    let ghost first = presses(drawn@);
    let mut queue: Vec<Change> = drawn;
    match panels.catching_up(known) {
        None => {
            assert(first + Seq::<Pressed>::empty() =~= first);
        },
        Some(change) => {
            let ghost said = change.view();
            let ghost was = queue@;
            queue.push(change);
            assert(presses(queue@) =~= presses(was) + seq![said]);
        },
    }
    let ghost second = presses(queue@);
    let mut keyed: Vec<Change> = stepped(typing, pressed);
    let ghost third = presses(keyed@);
    let ghost was = queue@;
    let ghost more = keyed@;
    queue.append(&mut keyed);
    assert(presses(queue@) =~= second + third) by {
        assert(queue@ =~= was + more);
    }
    let ghost fourth = presses(dropped@);
    let ghost before = queue@;
    let ghost last = dropped@;
    let mut dropped: Vec<Change> = dropped;
    queue.append(&mut dropped);
    assert(presses(queue@) =~= second + third + fourth) by {
        assert(queue@ =~= before + last);
    }
    queue
}

/// How many sides a press brings.
pub open spec fn sides_in(change: Pressed) -> nat {
    match change {
        Pressed::Bake(_, walls) => 6 * walls.len(),
        _ => 0,
    }
}

/// How many sides several presses bring.
pub open spec fn sides_in_all(queue: Seq<Pressed>) -> nat
    decreases queue.len(),
{
    if queue.len() == 0 {
        0
    } else {
        sides_in(queue[0]) + sides_in_all(queue.drop_first())
    }
}

/// Whether there are numbers enough for everything several presses could
/// bake.
pub open spec fn fits(world: Worldly, queue: Seq<Pressed>) -> bool {
    &&& world.meshes.len() + sides_in_all(queue) < u32::MAX
    &&& forall|i: int| 0 <= i < queue.len() ==> 4 * sides_in(#[trigger] queue[i]) <= u32::MAX
}

/// Where a frame stands once it has stopped: what the panels hold, what the
/// world is, which presses are left, and what is asked.
pub ghost struct Turn {
    pub held: Held,
    pub world: Worldly,
    pub left: Seq<Pressed>,
    pub asked: Option<Asked>,
}

/// Presses done in turn, up to the first that asks for something.
pub open spec fn pressed_until(held: Held, world: Worldly, queue: Seq<Pressed>) -> Turn
    decreases queue.len(),
{
    if queue.len() == 0 {
        Turn { held, world, left: queue, asked: None }
    } else {
        let (then, after, asked) = applied(held, world, queue[0]);
        if asked is Some {
            Turn { held: then, world: after, left: queue.drop_first(), asked }
        } else {
            pressed_until(then, after, queue.drop_first())
        }
    }
}

/// A press registers no more meshes than it brings sides.
proof fn a_press_registers_few(held: Held, world: Worldly, change: Pressed)
    ensures
        applied(held, world, change).1.meshes.len() <= world.meshes.len() + sides_in(change),
{
    reveal(on_delete);
    reveal(on_duplicate);
    reveal(on_hang);
    reveal(on_group);
    reveal(on_ungroup);
    reveal(on_inside);
    reveal(on_hide);
    reveal(on_edit);
    reveal(on_undo);
    reveal(on_redo);
    reveal(on_inspect);
    reveal(on_rename_asset);
    reveal(on_show);
    reveal(on_shut);
    reveal(on_water);
    reveal(on_block);
    reveal(on_decal);
    reveal(on_bake);
    reveal(on_light);
    reveal(on_drop);
    reveal(on_word);
    match change {
        Pressed::Bake(filed, walls) => {
            let picks = picks_of(held.selection);
            blocks_give_few_faces(world.scene, blocks_of(world.scene, picks), walls);
            a_bake_registers_few(
                world,
                picks,
                sides_of(world.scene, picks, walls),
                stem_of(trimmed(filed)),
            );
        },
        _ => {},
    }
}

/// Does the presses of a frame in turn, up to the first that asks for
/// something of whoever runs the editor. What it asks; the presses behind it
/// are left in the queue. Nothing once all are done.
pub fn press(panels: &mut Panels, world: &mut World, queue: &mut Vec<Change>) -> (result: Option<
    Request,
>)
    requires
        old(panels).wf(),
        old(world).wf(),
        fits(old(world).view(), presses(old(queue)@)),
    ensures
        final(panels).wf(),
        final(world).wf(),
        ({
            let turn = pressed_until(
                old(panels).view(),
                old(world).view(),
                presses(old(queue)@),
            );
            &&& final(panels).view() == turn.held
            &&& final(world).view() == turn.world
            &&& presses(final(queue)@) == turn.left
            &&& request_view(result) == turn.asked
            &&& fits(final(world).view(), presses(final(queue)@))
        }),
        result is None ==> final(queue)@.len() == 0,
{
    let ghost want = pressed_until(panels.view(), world.view(), presses(queue@));
    while queue.len() > 0
        invariant
            panels.wf(),
            world.wf(),
            fits(world.view(), presses(queue@)),
            want == pressed_until(panels.view(), world.view(), presses(queue@)),
            want == pressed_until(
                old(panels).view(),
                old(world).view(),
                presses(old(queue)@),
            ),
        decreases queue@.len(),
    {
        let ghost all = presses(queue@);
        let ghost before = queue@;
        let change: Change = queue.remove(0);
        proof {
            assert(all[0] == change.view());
            assert(presses(queue@) =~= all.drop_first()) by {
                assert(queue@ =~= before.drop_first());
            }
            a_press_registers_few(panels.view(), world.view(), change.view());
            assert(4 * sides_in(all[0]) <= u32::MAX);
            assert forall|i: int| 0 <= i < all.drop_first().len() implies 4 * sides_in(
                #[trigger] all.drop_first()[i],
            ) <= u32::MAX by {
                assert(all.drop_first()[i] == all[i + 1]);
            }
        }
        let ghost then = panels.view();
        let ghost at = world.view();
        let asked: Option<Request> = panels.apply(world, &change);
        proof {
            let outcome = applied(then, at, all[0]);
            assert(outcome == (panels.view(), world.view(), request_view(asked)));
            assert(asked is Some == request_view(asked) is Some);
        }
        if asked.is_some() {
            return asked;
        }
    }
    assert(presses(queue@) =~= Seq::empty());
    None
}

/// However many presses a frame does before it stops, everything stays
/// planted.
pub proof fn a_turn_keeps_everything_planted(held: Held, world: Worldly, queue: Seq<Pressed>)
    requires
        planted(world.scene.entities),
    ensures
        planted(pressed_until(held, world, queue).world.scene.entities),
    decreases queue.len(),
{
    if queue.len() > 0 {
        a_press_keeps_everything_planted(held, world, queue[0]);
        let (then, after, _) = applied(held, world, queue[0]);
        a_turn_keeps_everything_planted(then, after, queue.drop_first());
    }
}

/// A frame stops only where something is asked or nothing is left, and each
/// time it stops there is less left to do.
pub proof fn a_turn_comes_to_an_end(held: Held, world: Worldly, queue: Seq<Pressed>)
    ensures
        ({
            let turn = pressed_until(held, world, queue);
            &&& turn.asked is None ==> turn.left.len() == 0
            &&& queue.len() > 0 ==> turn.left.len() < queue.len()
            &&& queue.len() == 0 ==> turn.asked is None && turn.held == held && turn.world == world
        }),
    decreases queue.len(),
{
    if queue.len() > 0 {
        let (then, after, _) = applied(held, world, queue[0]);
        a_turn_comes_to_an_end(then, after, queue.drop_first());
    }
}

/// A click selects the outermost group around what is under it, and exactly what
/// is under it with alt held; with the command key that is added to what was
/// selected or taken out of it. Without a click what was selected stays, found
/// again. The name field is answered either way.
pub proof fn what_a_click_selects(held: Held, world: Worldly, pick: Pick)
    ensures
        ({
            let begun = refreshed(held.selection, world);
            let exact = looked(held, world, Some(Click { pick, alt: true, command: false }));
            let whole = looked(held, world, Some(Click { pick, alt: false, command: false }));
            let more = looked(held, world, Some(Click { pick, alt: true, command: true }));
            let none = looked(held, world, None);
            &&& pick != Pick::Nothing ==> picks_of(exact.selection) == seq![pick]
            &&& pick == Pick::Nothing ==> exact.selection.len() == 0
            &&& whole.selection == only(world, around(world.scene.entities, pick))
            &&& more.selection == toggled(begun, world, pick)
            &&& none.selection == begun
            &&& !exact.rename && !whole.rename && !more.rename && !none.rename
            &&& none.was_editing == world.editing && exact.was_editing == world.editing
            &&& none == (Held {
                selection: none.selection,
                past: none.past,
                was_editing: world.editing,
                rename: false,
                ..held
            })
            &&& exact == (Held { selection: exact.selection, ..none })
        }),
{
    let exact = looked(held, world, Some(Click { pick, alt: true, command: false }));
    if pick != Pick::Nothing {
        assert(picks_of(exact.selection) =~= seq![pick]);
    }
}

/// Everything pressed in a frame is done, in this order: what was pressed on the
/// panels, a scene the compiler caught up with, what the keys asked for and what
/// was dropped; each in the order it came.
pub proof fn every_press_is_queued(
    held: Held,
    drawn: Seq<Pressed>,
    known: Seq<Seq<char>>,
    keyed: Seq<Pressed>,
    dropped: Seq<Pressed>,
)
    ensures
        ({
            let queue = queued(held, drawn, known, keyed, dropped);
            let caught: int = if first_known(held.waiting, known) is Some {
                1
            } else {
                0
            };
            &&& queue.len() == drawn.len() + caught + keyed.len() + dropped.len()
            &&& queue.take(drawn.len() as int) == drawn
            &&& queue.skip(queue.len() - dropped.len()) == dropped
            &&& queue.subrange(
                drawn.len() + caught,
                queue.len() - dropped.len(),
            ) == keyed
            &&& caught == 1 ==> queue[drawn.len() as int] == Pressed::Reopen(
                held.waiting[first_known(held.waiting, known)->0],
            )
        }),
{
    let queue = queued(held, drawn, known, keyed, dropped);
    assert(queue.take(drawn.len() as int) =~= drawn);
    assert(queue.skip(queue.len() - dropped.len()) =~= dropped);
    let caught: int = if first_known(held.waiting, known) is Some {
        1
    } else {
        0
    };
    assert(queue.subrange(drawn.len() + caught, queue.len() - dropped.len()) =~= keyed);
}

/// Presses are done one after the other, each on what the one before it left: a
/// press that asks for something is the last that is done, and what was pressed
/// behind it is left as it was.
pub proof fn presses_are_done_in_turn(
    held: Held,
    world: Worldly,
    first: Pressed,
    rest: Seq<Pressed>,
)
    ensures
        ({
            let (then, after, asked) = applied(held, world, first);
            let turn = pressed_until(held, world, seq![first] + rest);
            &&& asked is None ==> turn == pressed_until(then, after, rest)
            &&& asked is Some ==> turn.held == then && turn.world == after && turn.asked == asked
                && turn.left == rest
        }),
{
    let queue = seq![first] + rest;
    assert(queue[0] == first);
    assert(queue.drop_first() =~= rest);
}

} // verus!
