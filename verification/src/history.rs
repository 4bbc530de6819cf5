//! What was done to the world, and how to undo it.
//!
//! A record is the world before and the world after, and undoing one is
//! putting the world before back. A record is a gesture, not a frame: it
//! opens at the first write and closes on the first frame in which nothing
//! writes. A play is one record too, held open from its start to its stop.
//! While a world is played, nothing else is recorded.

use vstd::prelude::*;
use crate::world::{same_world, Described, Scene, World, Worldly};

verus! {

/// How many records are kept before the oldest is dropped.
pub const LIMIT: usize = 64;

/// One thing that was done: the world on either side of it.
#[derive(Debug)]
pub struct Record {
    /// What was done, in a word or two, for a button.
    pub label: String,
    /// The world before it.
    pub before: Scene,
    /// The world after it.
    pub after: Scene,
}

/// A record that has begun and not ended: the gesture in progress.
#[derive(Debug)]
pub struct Open {
    pub label: String,
    pub before: Scene,
}

/// Everything that was done, in order, and how far back it has been undone.
#[derive(Debug)]
pub struct History {
    records: Vec<Record>,
    /// How many of the records stand: everything before this is undoable and
    /// everything from it on is redoable.
    done: usize,
    /// The gesture in progress, if one is.
    open: Option<Open>,
    /// Whether anything wrote this frame, which is what keeps an open record
    /// open across the frames of a drag.
    written: bool,
    /// Whether the open record is a play rather than a gesture, and is kept
    /// open until whoever started it says otherwise.
    holding: bool,
    /// How many records are kept.
    limit: usize,
}

/// One thing that was done.
pub ghost struct Deed {
    pub label: Seq<char>,
    pub before: Described,
    pub after: Described,
}

/// The gesture in progress.
pub ghost struct Begun {
    pub label: Seq<char>,
    pub before: Described,
}

/// Everything that was done.
pub ghost struct Past {
    pub records: Seq<Deed>,
    pub done: nat,
    pub open: Option<Begun>,
    pub written: bool,
    pub holding: bool,
    pub limit: nat,
}

/// Whether a past is as pasts are: no more records than are kept, and no
/// more of them standing than there are.
pub open spec fn sound(past: Past) -> bool {
    &&& past.done <= past.records.len()
    &&& past.records.len() <= past.limit
}

/// Records with one more behind those that stand, the oldest dropped where
/// there is one too many.
pub open spec fn recorded(records: Seq<Deed>, done: nat, limit: nat, deed: Deed) -> Seq<Deed> {
    let more = records.take(done as int).push(deed);
    if more.len() > limit {
        more.drop_first()
    } else {
        more
    }
}

/// A past with its open record ended by a world: written down unless that is
/// the world it began with, the clock aside.
pub open spec fn closed(past: Past, world: Described) -> Past {
    match past.open {
        None => past,
        Some(open) => if same_world(open.before, world) {
            Past { open: None, ..past }
        } else {
            let records = recorded(
                past.records,
                past.done,
                past.limit,
                Deed { label: open.label, before: open.before, after: world },
            );
            Past { open: None, records, done: records.len(), ..past }
        },
    }
}

/// Whether ending the open record by a world writes it down.
pub open spec fn records(past: Past, world: Described) -> bool {
    match past.open {
        None => false,
        Some(open) => !same_world(open.before, world),
    }
}

/// A past in which something is about to be written.
pub open spec fn begun(past: Past, label: Seq<char>, world: Worldly) -> Past {
    if !world.editing {
        past
    } else if past.open is None {
        Past { written: true, open: Some(Begun { label, before: world.scene }), ..past }
    } else {
        Past { written: true, ..past }
    }
}

/// A past with a record held open from a world on.
pub open spec fn held(past: Past, label: Seq<char>, world: Described) -> Past {
    if past.holding {
        past
    } else {
        Past { holding: true, open: Some(Begun { label, before: world }), ..closed(past, world) }
    }
}

/// A past with its held record ended by a world.
pub open spec fn released(past: Past, world: Described) -> Past {
    if past.holding {
        closed(Past { holding: false, written: false, ..past }, world)
    } else {
        past
    }
}

/// A past at the end of a frame: a gesture nobody wrote to is over.
pub open spec fn settled(past: Past, world: Described) -> Past {
    let quiet = Past { written: false, ..past };
    if past.written || past.holding {
        quiet
    } else {
        closed(quiet, world)
    }
}

/// A past one step back, a gesture in progress ended first.
pub open spec fn undone(past: Past, world: Described) -> Past {
    let ended = Past { written: false, ..closed(past, world) };
    if ended.done == 0 {
        ended
    } else {
        Past { done: (ended.done - 1) as nat, ..ended }
    }
}

/// The world a step back puts back, if there is one to take.
pub open spec fn before_that(past: Past, world: Described) -> Option<Described> {
    let ended = closed(past, world);
    if ended.done == 0 {
        None
    } else {
        Some(ended.records[ended.done - 1].before)
    }
}

/// A past one step forward again.
pub open spec fn redone(past: Past) -> Past {
    if past.done < past.records.len() {
        Past { done: past.done + 1, ..past }
    } else {
        past
    }
}

/// The world a step forward puts back, if there is one to take.
pub open spec fn after_that(past: Past) -> Option<Described> {
    if past.done < past.records.len() {
        Some(past.records[past.done as int].after)
    } else {
        None
    }
}

/// What records say.
pub open spec fn deeds(records: Seq<Record>) -> Seq<Deed> {
    Seq::new(
        records.len(),
        |i: int|
            Deed {
                label: records[i].label@,
                before: records[i].before.view(),
                after: records[i].after.view(),
            },
    )
}

impl History {
    /// Everything that was done.
    pub closed spec fn view(&self) -> Past {
        Past {
            records: deeds(self.records@),
            done: self.done as nat,
            open: match self.open {
                None => None,
                Some(open) => Some(Begun { label: open.label@, before: open.before.view() }),
            },
            written: self.written,
            holding: self.holding,
            limit: self.limit as nat,
        }
    }

    /// Whether the history is as histories are, and every world in it as
    /// worlds are.
    pub closed spec fn wf(&self) -> bool {
        &&& sound(self.view())
        &&& forall|i: int|
            0 <= i < self.records@.len() ==> (#[trigger] self.records@[i]).before.wf()
                && self.records@[i].after.wf()
        &&& self.open is Some ==> self.open->0.before.wf()
    }

    /// What a history holds is as a past is.
    pub proof fn is_sound(&self)
        requires
            self.wf(),
        ensures
            sound(self.view()),
    {
    }

    /// A history with nothing in it, keeping so many records.
    pub fn new(limit: usize) -> (result: History)
        ensures
            result.wf(),
            result.view() == (Past {
                records: Seq::empty(),
                done: 0,
                open: None,
                written: false,
                holding: false,
                limit: limit as nat,
            }),
    {
        let result: History = History {
            records: Vec::new(),
            done: 0,
            open: None,
            written: false,
            holding: false,
            limit,
        };
        assert(result.view().records =~= Seq::empty());
        result
    }

    /// Says that something is about to be written, so that the world as it
    /// stands is what an undo goes back to. The first call of a gesture names
    /// it; nothing is written down while the world is played.
    pub fn begin(&mut self, label: &str, world: &World)
        requires
            old(self).wf(),
            world.wf(),
        ensures
            final(self).wf(),
            final(self).view() == begun(old(self).view(), label@, world.view()),
    {
        if !world.editing {
            return;
        }
        self.written = true;
        if self.open.is_none() {
            self.open = Some(Open { label: label.to_owned(), before: world.scene.copy() });
        }
    }

    /// Opens a record that outlasts the frame, and the frames after it. One
    /// that is open already is kept.
    pub fn hold(&mut self, label: &str, world: &World)
        requires
            old(self).wf(),
            world.wf(),
        ensures
            final(self).wf(),
            final(self).view() == held(old(self).view(), label@, world.view().scene),
    {
        if self.holding {
            return;
        }
        self.close(world);
        self.holding = true;
        self.open = Some(Open { label: label.to_owned(), before: world.scene.copy() });
    }

    /// Ends a held record. Whether it came to anything.
    pub fn release(&mut self, world: &World) -> (result: bool)
        requires
            old(self).wf(),
            world.wf(),
        ensures
            final(self).wf(),
            final(self).view() == released(old(self).view(), world.view().scene),
            result == (old(self).view().holding && records(
                old(self).view(),
                world.view().scene,
            )),
    {
        if !self.holding {
            return false;
        }
        self.holding = false;
        self.written = false;
        self.close(world)
    }

    /// Whether a stretch is being held open.
    pub fn holding(&self) -> (result: bool)
        ensures
            result == self.view().holding,
    {
        self.holding
    }

    /// Ends the frame: a gesture nobody wrote to this frame is over. Whether
    /// a record was written down.
    pub fn settle(&mut self, world: &World) -> (result: bool)
        requires
            old(self).wf(),
            world.wf(),
        ensures
            final(self).wf(),
            final(self).view() == settled(old(self).view(), world.view().scene),
            result == (!old(self).view().written && !old(self).view().holding && records(
                old(self).view(),
                world.view().scene,
            )),
    {
        let written: bool = self.written;
        self.written = false;
        if written || self.holding {
            return false;
        }
        self.close(world)
    }

    /// Ends the gesture in progress, if there is one. Whether it came to
    /// anything.
    fn close(&mut self, world: &World) -> (result: bool)
        requires
            old(self).wf(),
            world.wf(),
        ensures
            final(self).wf(),
            final(self).view() == closed(old(self).view(), world.view().scene),
            result == records(old(self).view(), world.view().scene),
    {
        let ghost was = self.view();
        let open: Open = match self.open.take() {
            None => {
                return false;
            },
            Some(open) => open,
        };
        if open.before.same_world(&world.scene) {
            return false;
        }
        let ghost deed = Deed {
            label: open.label@,
            before: open.before.view(),
            after: world.view().scene,
        };
        self.records.truncate(self.done);
        assert(deeds(self.records@) =~= was.records.take(was.done as int));
        self.records.push(
            Record { label: open.label, before: open.before, after: world.scene.copy() },
        );
        assert(deeds(self.records@) =~= was.records.take(was.done as int).push(deed));
        if self.records.len() > self.limit {
            let ghost more = self.records@;
            self.records.remove(0);
            assert(deeds(self.records@) =~= deeds(more).drop_first());
        }
        self.done = self.records.len();
        true
    }

    /// Takes one step back, a gesture in progress ended first. The world to
    /// put back, or nothing if there is nothing to undo.
    pub fn undo(&mut self, world: &World) -> (result: Option<Scene>)
        requires
            old(self).wf(),
            world.wf(),
        ensures
            final(self).wf(),
            final(self).view() == undone(old(self).view(), world.view().scene),
            result is Some == before_that(old(self).view(), world.view().scene) is Some,
            result is Some ==> result->0.view() == before_that(
                old(self).view(),
                world.view().scene,
            )->0 && result->0.wf(),
    {
        self.close(world);
        self.written = false;
        if self.done == 0 {
            return None;
        }
        self.done = self.done - 1;
        Some(self.records[self.done].before.copy())
    }

    /// Takes one step forward again. The world to put back, or nothing if
    /// there is nothing to redo.
    pub fn redo(&mut self) -> (result: Option<Scene>)
        requires
            old(self).wf(),
        ensures
            final(self).wf(),
            final(self).view() == redone(old(self).view()),
            result is Some == after_that(old(self).view()) is Some,
            result is Some ==> result->0.view() == after_that(old(self).view())->0
                && result->0.wf(),
    {
        if self.done >= self.records.len() {
            return None;
        }
        let after: Scene = self.records[self.done].after.copy();
        self.done = self.done + 1;
        Some(after)
    }

    /// What an undo would undo, for a button.
    pub fn undoable(&self) -> (result: Option<&str>)
        requires
            self.wf(),
        ensures
            result is Some == (self.view().done > 0),
            result is Some ==> result->0@ == self.view().records[self.view().done - 1].label,
    {
        if self.done == 0 {
            None
        } else {
            Some(self.records[self.done - 1].label.as_str())
        }
    }

    /// What a redo would do again, for a button.
    pub fn redoable(&self) -> (result: Option<&str>)
        ensures
            result is Some == (self.view().done < self.view().records.len()),
            result is Some ==> result->0@ == self.view().records[self.view().done as int].label,
    {
        if self.done < self.records.len() {
            Some(self.records[self.done].label.as_str())
        } else {
            None
        }
    }

    /// How many records there are, undone ones included.
    pub fn len(&self) -> (result: usize)
        ensures
            result == self.view().records.len(),
    {
        self.records.len()
    }
}

impl Default for History {
    fn default() -> (result: History)
        ensures
            result.wf(),
            result.view() == (Past {
                records: Seq::empty(),
                done: 0,
                open: None,
                written: false,
                holding: false,
                limit: LIMIT as nat,
            }),
    {
        History::new(LIMIT)
    }
}

/// However it is used, a history keeps no more records than it may, and no
/// more of them stand than there are.
pub proof fn always_sound(past: Past, label: Seq<char>, world: Worldly)
    requires
        sound(past),
    ensures
        sound(begun(past, label, world)),
        sound(held(past, label, world.scene)),
        sound(released(past, world.scene)),
        sound(settled(past, world.scene)),
        sound(undone(past, world.scene)),
        sound(redone(past)),
{
}

/// A step back and a step forward again leave the past as it was, and the
/// step forward puts back the world the step back was taken from.
pub proof fn redo_takes_back_undo(past: Past, world: Described)
    requires
        sound(past),
        before_that(past, world) is Some,
    ensures
        ({
            let ended = Past { written: false, ..closed(past, world) };
            let back = undone(past, world);
            &&& redone(back) == ended
            &&& after_that(back) == Some(ended.records[ended.done - 1].after)
            &&& records(past, world) && past.limit > 0 ==> after_that(back) == Some(world)
        }),
{
}

/// A step forward and a step back again leave the past as it was.
pub proof fn undo_takes_back_redo(past: Past, world: Described)
    requires
        sound(past),
        past.open is None,
        after_that(past) is Some,
    ensures
        undone(redone(past), world) == (Past { written: false, ..past }),
        before_that(redone(past), world) == Some(past.records[past.done as int].before),
{
}

/// What was just written down is what a step back undoes: the world the
/// gesture began with comes back.
pub proof fn undo_gives_back_the_beginning(past: Past, world: Described)
    requires
        sound(past),
        past.limit > 0,
        records(past, world),
    ensures
        before_that(past, world) == Some(past.open->0.before),
        before_that(closed(past, world), world) == Some(past.open->0.before),
{
}

/// A new record drops everything that had been undone: there is nothing to
/// redo behind it, and what stood before it stands.
pub proof fn a_new_record_drops_the_redos(past: Past, world: Described)
    requires
        sound(past),
        records(past, world),
    ensures
        after_that(closed(past, world)) is None,
        past.done < past.limit ==> closed(past, world).records == past.records.take(
            past.done as int,
        ).push(
            Deed {
                label: past.open->0.label,
                before: past.open->0.before,
                after: world,
            },
        ),
        past.done == past.limit ==> closed(past, world).records == past.records.push(
            Deed {
                label: past.open->0.label,
                before: past.open->0.before,
                after: world,
            },
        ).drop_first(),
{
    if past.done == past.limit {
        assert(past.records.take(past.done as int) =~= past.records);
    }
}

/// A gesture that leaves the world as it found it, whatever its clock says,
/// is not a step.
pub proof fn nothing_done_is_no_record(past: Past, label: Seq<char>, world: Worldly, later: Described)
    requires
        sound(past),
        past.open is None,
        same_world(world.scene, later),
    ensures
        ({
            let after = settled(settled(begun(past, label, world), later), later);
            !past.holding ==> after == (Past { written: false, ..past })
        }),
{
}

/// A play that ends where it began is not a step, and one that does not is
/// exactly one, standing behind everything done before it.
pub proof fn a_play_is_one_record_or_none(
    past: Past,
    label: Seq<char>,
    start: Described,
    stop: Described,
)
    requires
        sound(past),
        !past.holding,
        past.open is None,
    ensures
        ({
            let after = released(held(past, label, start), stop);
            if same_world(start, stop) {
                after == (Past { written: false, ..past })
            } else {
                &&& after.records == recorded(
                    past.records,
                    past.done,
                    past.limit,
                    Deed { label, before: start, after: stop },
                )
                &&& after.done == after.records.len()
                &&& after.open is None
                &&& !after.holding
            }
        }),
{
}

/// A held record outlasts every frame, and a second hold keeps the world the
/// first one saw.
pub proof fn a_held_record_stays(past: Past, label: Seq<char>, world: Described)
    requires
        past.holding,
    ensures
        settled(past, world).open == past.open,
        settled(past, world).holding,
        settled(past, world).records == past.records,
        held(past, label, world) == past,
{
}

/// A gesture is one record however many frames it takes: a frame in which
/// something was written keeps it open as it was begun.
pub proof fn a_writing_frame_keeps_the_gesture(past: Past, label: Seq<char>, world: Worldly)
    requires
        world.editing,
        past.open is Some,
    ensures
        begun(past, label, world).open == past.open,
        settled(begun(past, label, world), world.scene).open == past.open,
        settled(begun(past, label, world), world.scene).records == past.records,
{
}

/// While a world is played, no writer leaves anything in the history.
pub proof fn a_played_world_records_nothing(past: Past, label: Seq<char>, world: Worldly)
    requires
        !world.editing,
    ensures
        begun(past, label, world) == past,
{
}

/// What a press does to an edited world can be taken back: a step back right
/// after it puts back the world it was pressed in.
pub proof fn what_was_done_can_be_undone(
    past: Past,
    label: Seq<char>,
    world: Worldly,
    after: Described,
)
    requires
        sound(past),
        past.limit > 0,
        past.open is None,
        world.editing,
        !same_world(world.scene, after),
    ensures
        before_that(begun(past, label, world), after) == Some(world.scene),
        after_that(undone(begun(past, label, world), after)) == Some(after),
{
}

} // verus!
