//! Slots of things, each reached by a handle that goes stale when its thing
//! does.
//!
//! A handle is a slot and a generation. A slot given to something new has a
//! generation no handle to an older thing has, so a stale handle resolves to
//! nothing instead of to whatever stands there now.

use vstd::prelude::*;
use crate::text::same;
use crate::value::{
    copy_sheet, copy_sheets, said_all, said_sheets, same_sheets, sheets_alike, sheets_alike_is_fair,
    Said, Value,
};

verus! {

/// What something in a table is reached by.
#[derive(Clone, Copy, Debug, PartialEq, Eq, Structural)]
pub struct Handle {
    pub slot: u32,
    pub generation: u32,
}

impl Handle {
    /// The handle to nothing.
    pub open spec fn nothing() -> Handle {
        Handle { slot: 0, generation: 0 }
    }

    /// The handle to nothing.
    pub fn none() -> (result: Handle)
        ensures
            result == Handle::nothing(),
    {
        Handle { slot: 0, generation: 0 }
    }

    /// Whether the handle was ever to anything.
    pub open spec fn some(self) -> bool {
        self.generation != 0
    }

    /// Whether the handle was ever to anything.
    pub fn is_some(self) -> (result: bool)
        ensures
            result == self.some(),
    {
        self.generation != 0
    }
}

/// The plain half of what a table holds.
pub trait Facts: Copy {
    /// Whether two say the same: fractions as fractions do, and everything
    /// else as it stands.
    spec fn like(self, other: Self) -> bool;

    /// Whether two say the same.
    fn same(self, other: Self) -> (result: bool)
        ensures
            result == self.like(other),
    ;

    /// Two can be compared either way round.
    proof fn like_is_fair(self, other: Self)
        ensures
            self.like(other) == other.like(self),
    ;
}

/// One thing in a table.
pub ghost struct Thing<F> {
    /// What it is called.
    pub name: Seq<char>,
    /// What waits in it for a record nobody has declared, each value as the
    /// line a save writes.
    pub notes: Seq<Seq<char>>,
    /// What the fields of its records hold, record for record.
    pub sheets: Seq<Seq<Said>>,
    /// What a panel decides by.
    pub facts: F,
}

/// One slot of a table.
pub ghost struct Standing<F> {
    /// The generation a handle to what stands here has.
    pub generation: u32,
    /// What stands here, if anything does.
    pub thing: Option<Thing<F>>,
}

/// One slot of a table.
#[derive(Debug)]
pub struct Slot<F> {
    pub generation: u32,
    pub held: bool,
    pub name: String,
    pub notes: Vec<String>,
    pub sheets: Vec<Vec<Value>>,
    pub facts: F,
}

/// What several texts say.
pub open spec fn texts(list: Seq<String>) -> Seq<Seq<char>> {
    Seq::new(list.len(), |i: int| list[i]@)
}

/// The same texts again.
pub fn copy_texts(list: &Vec<String>) -> (result: Vec<String>)
    ensures
        texts(result@) == texts(list@),
{
    let mut result: Vec<String> = Vec::new();
    let mut i: usize = 0;
    while i < list.len()
        invariant
            i <= list@.len(),
            result@.len() == i,
            forall|k: int| 0 <= k < i ==> (#[trigger] result@[k])@ == list@[k]@,
        decreases list@.len() - i,
    {
        result.push(list[i].clone());
        i = i + 1;
    }
    assert(texts(result@) =~= texts(list@));
    result
}

/// Whether two lists hold the same texts.
pub fn same_texts(left: &Vec<String>, right: &Vec<String>) -> (result: bool)
    ensures
        result == (texts(left@) == texts(right@)),
{
    if left.len() != right.len() {
        assert(texts(left@).len() != texts(right@).len());
        return false;
    }
    let mut i: usize = 0;
    while i < left.len()
        invariant
            i <= left@.len(),
            left@.len() == right@.len(),
            forall|k: int| 0 <= k < i ==> (#[trigger] left@[k])@ == right@[k]@,
        decreases left@.len() - i,
    {
        if !same(left[i].as_str(), right[i].as_str()) {
            assert(texts(left@)[i as int] != texts(right@)[i as int]);
            return false;
        }
        i = i + 1;
    }
    assert(texts(left@) =~= texts(right@));
    true
}

impl<F: Facts> Slot<F> {
    /// What stands here.
    pub open spec fn view(&self) -> Standing<F> {
        Standing {
            generation: self.generation,
            thing: if self.held {
                Some(
                    Thing {
                        name: self.name@,
                        notes: texts(self.notes@),
                        sheets: said_sheets(self.sheets@),
                        facts: self.facts,
                    },
                )
            } else {
                None
            },
        }
    }

    /// The same slot again.
    fn copy(&self) -> (result: Slot<F>)
        ensures
            result.view() == self.view(),
    {
        Slot {
            generation: self.generation,
            held: self.held,
            name: self.name.clone(),
            notes: copy_texts(&self.notes),
            sheets: copy_sheets(&self.sheets),
            facts: self.facts,
        }
    }

    /// Whether what stands in two slots says the same.
    fn same(&self, other: &Slot<F>) -> (result: bool)
        ensures
            result == standing_alike(self.view(), other.view()),
    {
        if self.generation != other.generation || self.held != other.held {
            return false;
        }
        !self.held || (same(self.name.as_str(), other.name.as_str()) && same_texts(
            &self.notes,
            &other.notes,
        ) && same_sheets(&self.sheets, &other.sheets) && self.facts.same(other.facts))
    }
}

/// Whether two things say the same.
pub open spec fn thing_alike<F: Facts>(left: Thing<F>, right: Thing<F>) -> bool {
    &&& left.name == right.name
    &&& left.notes == right.notes
    &&& sheets_alike(left.sheets, right.sheets)
    &&& left.facts.like(right.facts)
}

/// Whether what stands in two slots says the same, under the same handle.
pub open spec fn standing_alike<F: Facts>(left: Standing<F>, right: Standing<F>) -> bool {
    &&& left.generation == right.generation
    &&& match (left.thing, right.thing) {
        (None, None) => true,
        (Some(one), Some(other)) => thing_alike(one, other),
        _ => false,
    }
}

/// Whether what stands in two tables says the same, slot for slot.
pub open spec fn table_alike<F: Facts>(left: Seq<Standing<F>>, right: Seq<Standing<F>>) -> bool {
    &&& left.len() == right.len()
    &&& forall|i: int| 0 <= i < left.len() ==> standing_alike(#[trigger] left[i], right[i])
}

/// What stands in two tables can be compared either way round.
pub proof fn table_alike_is_fair<F: Facts>(left: Seq<Standing<F>>, right: Seq<Standing<F>>)
    ensures
        table_alike(left, right) == table_alike(right, left),
{
    if left.len() == right.len() {
        assert forall|i: int| 0 <= i < left.len() implies standing_alike(left[i], right[i])
            == standing_alike(right[i], left[i]) by {
            match (left[i].thing, right[i].thing) {
                (Some(one), Some(other)) => {
                    sheets_alike_is_fair(one.sheets, other.sheets);
                    one.facts.like_is_fair(other.facts);
                },
                _ => {},
            }
        }
    }
}

/// What every slot of a table holds.
pub open spec fn standings<F: Facts>(slots: Seq<Slot<F>>) -> Seq<Standing<F>> {
    Seq::new(slots.len(), |i: int| slots[i].view())
}

/// Whether a handle resolves.
pub open spec fn lives<F>(table: Seq<Standing<F>>, id: Handle) -> bool {
    &&& id.slot < table.len()
    &&& table[id.slot as int].generation == id.generation
    &&& table[id.slot as int].thing is Some
}

/// What a handle resolves to.
pub open spec fn thing_at<F>(table: Seq<Standing<F>>, id: Handle) -> Thing<F> {
    table[id.slot as int].thing->0
}

/// What a handle's thing is called; nothing for one that does not resolve.
pub open spec fn name_at<F>(table: Seq<Standing<F>>, id: Handle) -> Seq<char> {
    if lives(table, id) {
        thing_at(table, id).name
    } else {
        Seq::empty()
    }
}

/// What the fields of the records of a handle's thing hold; nothing for one
/// that does not resolve.
pub open spec fn sheets_at<F>(table: Seq<Standing<F>>, id: Handle) -> Seq<Seq<Said>> {
    if lives(table, id) {
        thing_at(table, id).sheets
    } else {
        Seq::empty()
    }
}

/// What the fields of one record of a handle's thing hold; nothing where it
/// has no such record.
pub open spec fn sheet_at<F>(table: Seq<Standing<F>>, id: Handle, record: nat) -> Seq<Said> {
    if record < sheets_at(table, id).len() {
        sheets_at(table, id)[record as int]
    } else {
        Seq::empty()
    }
}

/// Records with what the fields of one of them hold written, where there is
/// such a record.
pub open spec fn sheet_put(sheets: Seq<Seq<Said>>, record: nat, sheet: Seq<Said>) -> Seq<Seq<Said>> {
    if record < sheets.len() {
        sheets.update(record as int, sheet)
    } else {
        sheets
    }
}

/// Whether a slot can be given to something new: it stands empty, and has a
/// generation left.
pub open spec fn free<F>(standing: Standing<F>) -> bool {
    standing.thing is None && standing.generation < u32::MAX
}

/// The first slot that can be given to something new.
pub open spec fn first_free<F>(table: Seq<Standing<F>>) -> Option<int>
    decreases table.len(),
{
    if table.len() == 0 {
        None
    } else if free(table[0]) {
        Some(0)
    } else {
        match first_free(table.drop_first()) {
            None => None,
            Some(index) => Some(index + 1),
        }
    }
}

/// The handle the next thing gets; the handle to nothing when there is no
/// room.
pub open spec fn next_handle<F>(table: Seq<Standing<F>>, limit: nat) -> Handle {
    match first_free(table) {
        Some(index) => Handle { slot: index as u32, generation: table[index].generation },
        None => if table.len() < limit {
            Handle { slot: table.len() as u32, generation: 1 }
        } else {
            Handle::nothing()
        },
    }
}

/// A table with one more thing in it, if there is room.
pub open spec fn spawned<F>(table: Seq<Standing<F>>, limit: nat, thing: Thing<F>) -> Seq<
    Standing<F>,
> {
    match first_free(table) {
        Some(index) => table.update(
            index,
            Standing { generation: table[index].generation, thing: Some(thing) },
        ),
        None => if table.len() < limit {
            table.push(Standing { generation: 1, thing: Some(thing) })
        } else {
            table
        },
    }
}

/// A table without the thing a handle resolves to.
pub open spec fn despawned<F>(table: Seq<Standing<F>>, id: Handle) -> Seq<Standing<F>> {
    if lives(table, id) {
        table.update(
            id.slot as int,
            Standing { generation: (id.generation + 1) as u32, thing: None },
        )
    } else {
        table
    }
}

/// A table with what a handle resolves to put as something else.
pub open spec fn replaced<F>(table: Seq<Standing<F>>, id: Handle, thing: Thing<F>) -> Seq<
    Standing<F>,
> {
    if lives(table, id) {
        table.update(id.slot as int, Standing { generation: id.generation, thing: Some(thing) })
    } else {
        table
    }
}

/// The handles that resolve, in the order of their slots.
pub open spec fn living<F>(table: Seq<Standing<F>>) -> Seq<Handle>
    decreases table.len(),
{
    if table.len() == 0 {
        Seq::empty()
    } else if table.last().thing is Some {
        living(table.drop_last()).push(
            Handle { slot: (table.len() - 1) as u32, generation: table.last().generation },
        )
    } else {
        living(table.drop_last())
    }
}

/// Whether a table is as tables are: no fuller than it may be, no slot of
/// generation nought, and nothing standing in a slot that ran out of
/// generations.
pub open spec fn sound<F>(table: Seq<Standing<F>>, limit: nat) -> bool {
    &&& table.len() <= limit
    &&& limit <= u32::MAX
    &&& forall|i: int|
        0 <= i < table.len() ==> {
            &&& (#[trigger] table[i]).generation >= 1
            &&& table[i].thing is Some ==> table[i].generation < u32::MAX
        }
}

/// The first free slot is free, and none before it is.
pub proof fn free_is_first<F>(table: Seq<Standing<F>>)
    ensures
        match first_free(table) {
            None => forall|i: int| 0 <= i < table.len() ==> !free(#[trigger] table[i]),
            Some(index) => {
                &&& 0 <= index < table.len()
                &&& free(table[index])
                &&& forall|i: int| 0 <= i < index ==> !free(#[trigger] table[i])
            },
        },
    decreases table.len(),
{
    if table.len() > 0 && !free(table[0]) {
        let less = table.drop_first();
        free_is_first(less);
        let limit = match first_free(less) {
            None => table.len() as int,
            Some(index) => index + 1,
        };
        assert forall|i: int| 0 <= i < limit implies !free(#[trigger] table[i]) by {
            if i > 0 {
                assert(table[i] == less[i - 1]);
            }
        }
    }
}

/// The living handles are those that resolve, each once, in the order of
/// their slots.
pub proof fn living_resolves<F>(table: Seq<Standing<F>>)
    requires
        table.len() <= u32::MAX,
    ensures
        forall|id: Handle| #[trigger] living(table).contains(id) <==> lives(table, id),
        forall|i: int, j: int|
            0 <= i < j < living(table).len() ==> (#[trigger] living(table)[i]).slot < (
            #[trigger] living(table)[j]).slot,
    decreases table.len(),
{
    if table.len() > 0 {
        let less = table.drop_last();
        living_resolves(less);
        let all = living(table);
        let head = living(less);
        let last = Handle { slot: (table.len() - 1) as u32, generation: table.last().generation };
        assert forall|id: Handle| #[trigger] all.contains(id) <==> lives(table, id) by {
            if id.slot < less.len() {
                assert(lives(table, id) == lives(less, id));
                assert(head.contains(id) == lives(less, id));
                if all.contains(id) {
                    let k = choose|k: int| 0 <= k < all.len() && all[k] == id;
                    assert(k < head.len());
                    assert(head[k] == id);
                }
                if head.contains(id) {
                    let k = choose|k: int| 0 <= k < head.len() && head[k] == id;
                    assert(all[k] == id);
                }
            } else {
                assert(!lives(less, id));
                assert(!head.contains(id));
                if table.last().thing is Some {
                    assert(all[head.len() as int] == last);
                    if lives(table, id) {
                        assert(id == last);
                    }
                    if all.contains(id) {
                        let k = choose|k: int| 0 <= k < all.len() && all[k] == id;
                        if k < head.len() {
                            assert(head[k] == id);
                        }
                    }
                }
            }
        }
        assert forall|i: int, j: int| 0 <= i < j < all.len() implies (#[trigger] all[i]).slot < (
        #[trigger] all[j]).slot by {
            assert(all[i] == head[i]);
            if j < head.len() {
                assert(all[j] == head[j]);
            } else {
                assert(head.contains(head[i]));
            }
        }
    }
}

/// What stands, stands under a handle that nothing had before, and every
/// other handle resolves to what it did.
pub proof fn spawned_is_new<F>(table: Seq<Standing<F>>, limit: nat, thing: Thing<F>, other: Handle)
    requires
        sound(table, limit),
    ensures
        ({
            let after = spawned(table, limit, thing);
            let made = next_handle(table, limit);
            &&& sound(after, limit)
            &&& !lives(table, made)
            &&& made.some() ==> lives(after, made) && thing_at(after, made) == thing
            &&& !made.some() ==> after == table
            &&& other != made ==> lives(after, other) == lives(table, other)
            &&& lives(table, other) ==> lives(after, other) && thing_at(after, other) == thing_at(
                table,
                other,
            )
        }),
{
    free_is_first(table);
    let after = spawned(table, limit, thing);
    assert forall|i: int| 0 <= i < after.len() implies (#[trigger] after[i]).generation >= 1 && (
    after[i].thing is Some ==> after[i].generation < u32::MAX) by {
        if i < table.len() {
            assert(table[i].generation >= 1);
        }
    }
    if let Some(index) = first_free(table) {
        assert(table[index].generation >= 1);
    }
}

/// A handle whose thing went resolves to nothing, and every other handle to
/// what it did.
pub proof fn despawned_is_gone<F>(table: Seq<Standing<F>>, limit: nat, id: Handle, other: Handle)
    requires
        sound(table, limit),
    ensures
        ({
            let after = despawned(table, id);
            &&& sound(after, limit)
            &&& !lives(after, id)
            &&& other != id ==> lives(after, other) == lives(table, other)
            &&& lives(after, other) ==> thing_at(after, other) == thing_at(table, other)
        }),
{
    let after = despawned(table, id);
    if lives(table, id) {
        assert(table[id.slot as int].generation < u32::MAX);
    }
    assert forall|i: int| 0 <= i < after.len() implies (#[trigger] after[i]).generation >= 1 && (
    after[i].thing is Some ==> after[i].generation < u32::MAX) by {
        assert(table[i].generation >= 1);
    }
}

/// A handle once stale stays stale: a thing that went never comes back under
/// its handle, whatever is put in its slot.
pub proof fn stale_stays_stale<F>(
    table: Seq<Standing<F>>,
    limit: nat,
    id: Handle,
    thing: Thing<F>,
    other: Handle,
)
    requires
        sound(table, limit),
        id.slot < table.len(),
        id.generation < table[id.slot as int].generation,
    ensures
        ({
            let more = spawned(table, limit, thing);
            let less = despawned(table, other);
            &&& !lives(table, id)
            &&& id.slot < more.len() && id.generation < more[id.slot as int].generation
            &&& id.slot < less.len() && id.generation < less[id.slot as int].generation
        }),
{
    free_is_first(table);
    if lives(table, other) {
        assert(table[other.slot as int].generation < u32::MAX);
    }
}

/// A table of things.
#[derive(Debug)]
pub struct Table<F> {
    slots: Vec<Slot<F>>,
    limit: usize,
}

impl<F: Facts> Table<F> {
    /// What every slot holds.
    pub closed spec fn view(&self) -> Seq<Standing<F>> {
        standings(self.slots@)
    }

    /// How many things there is room for.
    pub closed spec fn room(&self) -> usize {
        self.limit
    }

    /// Whether the table is as tables are.
    pub open spec fn wf(&self) -> bool {
        sound(self.view(), self.room() as nat)
    }

    /// A table with nothing in it, and room for so many things.
    pub fn new(limit: usize) -> (result: Table<F>)
        requires
            limit <= u32::MAX,
        ensures
            result.wf(),
            result.view() == Seq::<Standing<F>>::empty(),
            result.room() == limit,
    {
        let result: Table<F> = Table { slots: Vec::new(), limit };
        assert(result.view() =~= Seq::empty());
        result
    }

    /// The same table again.
    pub fn copy(&self) -> (result: Table<F>)
        ensures
            result.view() == self.view(),
            result.room() == self.room(),
    {
        let mut slots: Vec<Slot<F>> = Vec::new();
        let mut i: usize = 0;
        while i < self.slots.len()
            invariant
                i <= self.slots@.len(),
                slots@.len() == i,
                forall|k: int| 0 <= k < i ==> (#[trigger] slots@[k]).view() == self.slots@[k].view(),
            decreases self.slots@.len() - i,
        {
            slots.push(self.slots[i].copy());
            i = i + 1;
        }
        assert(standings(slots@) =~= self.view());
        Table { slots, limit: self.limit }
    }

    /// Whether what stands in two tables says the same, slot for slot.
    pub fn same(&self, other: &Table<F>) -> (result: bool)
        ensures
            result == table_alike(self.view(), other.view()),
    {
        if self.slots.len() != other.slots.len() {
            return false;
        }
        let mut i: usize = 0;
        while i < self.slots.len()
            invariant
                i <= self.slots@.len(),
                self.slots@.len() == other.slots@.len(),
                forall|k: int|
                    0 <= k < i ==> standing_alike(#[trigger] self.view()[k], other.view()[k]),
            decreases self.slots@.len() - i,
        {
            if !self.slots[i].same(&other.slots[i]) {
                assert(!standing_alike(self.view()[i as int], other.view()[i as int]));
                return false;
            }
            i = i + 1;
        }
        true
    }

    /// How many slots there are, empty ones counted.
    pub fn slots(&self) -> (result: usize)
        ensures
            result == self.view().len(),
    {
        self.slots.len()
    }

    /// Whether a handle resolves.
    pub fn alive(&self, id: Handle) -> (result: bool)
        ensures
            result == lives(self.view(), id),
    {
        let at: usize = id.slot as usize;
        at < self.slots.len() && self.slots[at].generation == id.generation && self.slots[at].held
    }

    /// What a handle's thing is called; nothing for one that does not
    /// resolve.
    pub fn name(&self, id: Handle) -> (result: &str)
        ensures
            result@ == name_at(self.view(), id),
    {
        proof {
            reveal_strlit("");
            assert(""@ =~= Seq::empty());
        }
        if self.alive(id) {
            self.slots[id.slot as usize].name.as_str()
        } else {
            ""
        }
    }

    /// The plain half of what a handle resolves to.
    pub fn get(&self, id: Handle) -> (result: Option<F>)
        ensures
            result == if lives(self.view(), id) {
                Some(thing_at(self.view(), id).facts)
            } else {
                None
            },
    {
        if self.alive(id) {
            Some(self.slots[id.slot as usize].facts)
        } else {
            None
        }
    }

    /// What waits in a handle's thing for a record nobody has declared.
    pub fn notes(&self, id: Handle) -> (result: Vec<String>)
        ensures
            texts(result@) == if lives(self.view(), id) {
                thing_at(self.view(), id).notes
            } else {
                Seq::empty()
            },
    {
        if self.alive(id) {
            copy_texts(&self.slots[id.slot as usize].notes)
        } else {
            let none: Vec<String> = Vec::new();
            assert(texts(none@) =~= Seq::empty());
            none
        }
    }

    /// What the fields of the records of a handle's thing hold.
    pub fn sheets(&self, id: Handle) -> (result: Vec<Vec<Value>>)
        ensures
            said_sheets(result@) == sheets_at(self.view(), id),
    {
        if self.alive(id) {
            copy_sheets(&self.slots[id.slot as usize].sheets)
        } else {
            let none: Vec<Vec<Value>> = Vec::new();
            assert(said_sheets(none@) =~= Seq::empty());
            none
        }
    }

    /// What the fields of one record of a handle's thing hold.
    pub fn sheet(&self, id: Handle, record: usize) -> (result: Vec<Value>)
        ensures
            said_all(result@) == sheet_at(self.view(), id, record as nat),
    {
        if self.alive(id) && record < self.slots[id.slot as usize].sheets.len() {
            copy_sheet(&self.slots[id.slot as usize].sheets[record])
        } else {
            let none: Vec<Value> = Vec::new();
            assert(said_all(none@) =~= Seq::empty());
            none
        }
    }

    /// The fields of a record can be counted.
    pub proof fn sheet_can_be_counted(&self, id: Handle, record: nat)
        ensures
            sheet_at(self.view(), id, record).len() <= usize::MAX,
    {
        if lives(self.view(), id) {
            let slot = self.slots@[id.slot as int];
            assert(self.view()[id.slot as int] == slot.view());
            if record < slot.sheets@.len() {
                let sheet = slot.sheets@[record as int];
                assert(said_sheets(slot.sheets@)[record as int] == said_all(sheet@));
                assert(sheet.len() == sheet@.len());
            }
        }
    }

    /// Writes what the fields of the records of a handle's thing hold. Whether
    /// it resolved.
    pub fn set_sheets(&mut self, id: Handle, sheets: Vec<Vec<Value>>) -> (result: bool)
        ensures
            result == lives(old(self).view(), id),
            final(self).view() == replaced(
                old(self).view(),
                id,
                Thing { sheets: said_sheets(sheets@), ..thing_at(old(self).view(), id) },
            ),
            final(self).room() == old(self).room(),
    {
        if !self.alive(id) {
            return false;
        }
        let ghost was = self.view();
        let ghost said = said_sheets(sheets@);
        self.slots[id.slot as usize].sheets = sheets;
        assert(self.view() =~= replaced(was, id, Thing { sheets: said, ..thing_at(was, id) }));
        true
    }

    /// Writes what the fields of one record of a handle's thing hold, where it
    /// has that record. Whether it resolved.
    pub fn set_sheet(&mut self, id: Handle, record: usize, sheet: Vec<Value>) -> (result: bool)
        ensures
            result == lives(old(self).view(), id),
            final(self).view() == replaced(
                old(self).view(),
                id,
                Thing {
                    sheets: sheet_put(
                        thing_at(old(self).view(), id).sheets,
                        record as nat,
                        said_all(sheet@),
                    ),
                    ..thing_at(old(self).view(), id)
                },
            ),
            final(self).room() == old(self).room(),
    {
        if !self.alive(id) {
            return false;
        }
        let mut sheets: Vec<Vec<Value>> = self.sheets(id);
        let ghost was = sheets@;
        let ghost said = said_all(sheet@);
        if record < sheets.len() {
            sheets.set(record, sheet);
            assert(said_sheets(sheets@) =~= said_sheets(was).update(record as int, said));
        }
        self.set_sheets(id, sheets)
    }

    /// Writes the plain half of what a handle resolves to. Whether it
    /// resolved.
    pub fn set(&mut self, id: Handle, facts: F) -> (result: bool)
        ensures
            result == lives(old(self).view(), id),
            final(self).view() == replaced(
                old(self).view(),
                id,
                Thing { facts, ..thing_at(old(self).view(), id) },
            ),
            final(self).room() == old(self).room(),
    {
        if !self.alive(id) {
            return false;
        }
        let ghost was = self.view();
        self.slots[id.slot as usize].facts = facts;
        assert(self.view() =~= replaced(was, id, Thing { facts, ..thing_at(was, id) }));
        true
    }

    /// Names what a handle resolves to. Whether it resolved.
    pub fn set_name(&mut self, id: Handle, name: &str) -> (result: bool)
        ensures
            result == lives(old(self).view(), id),
            final(self).view() == replaced(
                old(self).view(),
                id,
                Thing { name: name@, ..thing_at(old(self).view(), id) },
            ),
            final(self).room() == old(self).room(),
    {
        if !self.alive(id) {
            return false;
        }
        let ghost was = self.view();
        self.slots[id.slot as usize].name = name.to_owned();
        assert(self.view() =~= replaced(was, id, Thing { name: name@, ..thing_at(was, id) }));
        true
    }

    /// The first slot that can be given to something new.
    fn vacancy(&self) -> (result: Option<usize>)
        ensures
            match first_free(self.view()) {
                None => result is None,
                Some(index) => result is Some && result->0 == index && index < self.slots@.len(),
            },
    {
        let ghost all = self.view();
        let mut i: usize = 0;
        assert(all.skip(0) =~= all);
        while i < self.slots.len()
            invariant
                i <= self.slots@.len(),
                all == self.view(),
                match first_free(all.skip(i as int)) {
                    None => first_free(all) is None,
                    Some(index) => first_free(all) == Some(index + i),
                },
            decreases self.slots@.len() - i,
        {
            assert(all.skip(i as int)[0] == all[i as int]);
            assert(all.skip(i as int).drop_first() =~= all.skip(i as int + 1));
            if !self.slots[i].held && self.slots[i].generation < u32::MAX {
                return Some(i);
            }
            i = i + 1;
        }
        None
    }

    /// Puts something in the table whose records hold nothing yet. Its handle,
    /// or the handle to nothing when there is no room.
    pub fn spawn(&mut self, name: &str, notes: Vec<String>, facts: F) -> (result: Handle)
        requires
            old(self).wf(),
        ensures
            result == next_handle(old(self).view(), old(self).room() as nat),
            final(self).view() == spawned(
                old(self).view(),
                old(self).room() as nat,
                Thing { name: name@, notes: texts(notes@), sheets: Seq::empty(), facts },
            ),
            final(self).wf(),
            final(self).room() == old(self).room(),
    {
        let sheets: Vec<Vec<Value>> = Vec::new();
        assert(said_sheets(sheets@) =~= Seq::empty());
        self.spawn_with(name, notes, sheets, facts)
    }

    /// Puts something in the table whose records hold something. Its handle,
    /// or the handle to nothing when there is no room.
    pub fn spawn_with(
        &mut self,
        name: &str,
        notes: Vec<String>,
        sheets: Vec<Vec<Value>>,
        facts: F,
    ) -> (result: Handle)
        requires
            old(self).wf(),
        ensures
            result == next_handle(old(self).view(), old(self).room() as nat),
            final(self).view() == spawned(
                old(self).view(),
                old(self).room() as nat,
                Thing { name: name@, notes: texts(notes@), sheets: said_sheets(sheets@), facts },
            ),
            final(self).wf(),
            final(self).room() == old(self).room(),
    {
        let ghost was = self.view();
        let ghost thing = Thing {
            name: name@,
            notes: texts(notes@),
            sheets: said_sheets(sheets@),
            facts,
        };
        proof {
            spawned_is_new(was, self.limit as nat, thing, Handle::nothing());
        }
        match self.vacancy() {
            Some(index) => {
                let generation: u32 = self.slots[index].generation;
                let slot: Slot<F> = Slot {
                    generation,
                    held: true,
                    name: name.to_owned(),
                    notes,
                    sheets,
                    facts,
                };
                self.slots.set(index, slot);
                assert(self.view() =~= was.update(
                    index as int,
                    Standing { generation, thing: Some(thing) },
                ));
                Handle { slot: index as u32, generation }
            },
            None => {
                if self.slots.len() < self.limit {
                    let at: usize = self.slots.len();
                    let slot: Slot<F> = Slot {
                        generation: 1,
                        held: true,
                        name: name.to_owned(),
                        notes,
                        sheets,
                        facts,
                    };
                    self.slots.push(slot);
                    assert(self.view() =~= was.push(
                        Standing { generation: 1, thing: Some(thing) },
                    ));
                    Handle { slot: at as u32, generation: 1 }
                } else {
                    Handle::none()
                }
            },
        }
    }

    /// Takes something out of the table. Whether it was there.
    pub fn despawn(&mut self, id: Handle) -> (result: bool)
        requires
            old(self).wf(),
        ensures
            result == lives(old(self).view(), id),
            final(self).view() == despawned(old(self).view(), id),
            final(self).wf(),
            final(self).room() == old(self).room(),
    {
        let ghost was = self.view();
        proof {
            despawned_is_gone(was, self.limit as nat, id, id);
        }
        if !self.alive(id) {
            return false;
        }
        let at: usize = id.slot as usize;
        assert(was[at as int].generation < u32::MAX);
        self.slots[at].held = false;
        self.slots[at].generation = id.generation + 1;
        assert(self.view() =~= despawned(was, id));
        true
    }

    /// The handles that resolve, in the order of their slots.
    pub fn ids(&self) -> (result: Vec<Handle>)
        requires
            self.view().len() <= u32::MAX,
        ensures
            result@ == living(self.view()),
    {
        let ghost all = self.view();
        let mut found: Vec<Handle> = Vec::new();
        let mut i: usize = 0;
        assert(all.take(0) =~= Seq::empty());
        while i < self.slots.len()
            invariant
                i <= self.slots@.len(),
                all == self.view(),
                all.len() <= u32::MAX,
                found@ == living(all.take(i as int)),
            decreases self.slots@.len() - i,
        {
            proof {
                assert(all.take(i as int + 1).drop_last() =~= all.take(i as int));
                assert(all.take(i as int + 1).last() == all[i as int]);
            }
            if self.slots[i].held {
                found.push(Handle { slot: i as u32, generation: self.slots[i].generation });
            }
            i = i + 1;
        }
        assert(all.take(i as int) =~= all);
        found
    }

    /// How many things there are.
    pub fn len(&self) -> (result: usize)
        requires
            self.view().len() <= u32::MAX,
        ensures
            result == living(self.view()).len(),
    {
        self.ids().len()
    }

    /// The first thing with a name, if anything has it.
    pub fn find(&self, name: &str) -> (result: Handle)
        requires
            self.view().len() <= u32::MAX,
        ensures
            result == first_called(self.view(), living(self.view()), name@),
    {
        let ids: Vec<Handle> = self.ids();
        let ghost all = living(self.view());
        let mut i: usize = 0;
        assert(all.skip(0) =~= all);
        while i < ids.len()
            invariant
                i <= ids@.len(),
                ids@ == all,
                all == living(self.view()),
                first_called(self.view(), all, name@) == first_called(
                    self.view(),
                    all.skip(i as int),
                    name@,
                ),
            decreases ids@.len() - i,
        {
            assert(all.skip(i as int)[0] == all[i as int]);
            assert(all.skip(i as int).drop_first() =~= all.skip(i as int + 1));
            if same(self.name(ids[i]), name) {
                return ids[i];
            }
            i = i + 1;
        }
        Handle::none()
    }

    /// Takes everything out of the table.
    pub fn clear(&mut self)
        requires
            old(self).wf(),
        ensures
            final(self).view() == cleared(old(self).view()),
            final(self).wf(),
            final(self).room() == old(self).room(),
    {
        let ghost was = self.view();
        let mut i: usize = 0;
        while i < self.slots.len()
            invariant
                i <= self.slots@.len(),
                self.limit == old(self).room(),
                sound(was, self.limit as nat),
                self.slots@.len() == was.len(),
                forall|k: int|
                    0 <= k < was.len() ==> (#[trigger] self.slots@[k]).view() == if k < i {
                        emptied(was[k])
                    } else {
                        was[k]
                    },
            decreases self.slots@.len() - i,
        {
            assert(self.slots@[i as int].view() == was[i as int]);
            if self.slots[i].held {
                assert(was[i as int].generation < u32::MAX);
                let next: u32 = self.slots[i].generation + 1;
                self.slots[i].held = false;
                self.slots[i].generation = next;
            }
            i = i + 1;
        }
        assert(self.view() =~= cleared(was));
        assert forall|k: int| 0 <= k < cleared(was).len() implies (#[trigger] cleared(
            was,
        )[k]).generation >= 1 && (cleared(was)[k].thing is Some ==> cleared(was)[k].generation
            < u32::MAX) by {
            assert(was[k].generation >= 1);
        }
    }
}

/// A slot with nothing left standing in it.
pub open spec fn emptied<F>(standing: Standing<F>) -> Standing<F> {
    if standing.thing is Some {
        Standing { generation: (standing.generation + 1) as u32, thing: None }
    } else {
        standing
    }
}

/// A table with nothing left standing in it.
pub open spec fn cleared<F>(table: Seq<Standing<F>>) -> Seq<Standing<F>> {
    Seq::new(table.len(), |i: int| emptied(table[i]))
}

/// The first of several handles whose thing has a name; the handle to nothing
/// when none has.
pub open spec fn first_called<F>(table: Seq<Standing<F>>, ids: Seq<Handle>, name: Seq<char>) -> Handle
    decreases ids.len(),
{
    if ids.len() == 0 {
        Handle::nothing()
    } else if name_at(table, ids[0]) == name {
        ids[0]
    } else {
        first_called(table, ids.drop_first(), name)
    }
}

/// How many slots can be given to something new.
pub open spec fn vacant<F>(table: Seq<Standing<F>>) -> nat
    decreases table.len(),
{
    if table.len() == 0 {
        0
    } else {
        vacant(table.drop_last()) + if free(table.last()) {
            1nat
        } else {
            0nat
        }
    }
}

/// How many more things there is room for.
pub open spec fn room_left<F>(table: Seq<Standing<F>>, limit: nat) -> nat {
    vacant(table) + if table.len() < limit {
        (limit - table.len()) as nat
    } else {
        0nat
    }
}

/// There is a slot that can be given to something new where any is counted.
proof fn vacant_is_free<F>(table: Seq<Standing<F>>)
    ensures
        vacant(table) > 0 <==> first_free(table) is Some,
    decreases table.len(),
{
    free_is_first(table);
    if table.len() > 0 {
        let less = table.drop_last();
        vacant_is_free(less);
        free_is_first(less);
        match first_free(less) {
            Some(index) => {
                assert(free(table[index]));
            },
            None => {
                if let Some(index) = first_free(table) {
                    if index < less.len() {
                        assert(free(less[index]));
                    }
                }
            },
        }
    }
}

/// A slot that is given to something is counted no more.
proof fn taking_a_slot<F>(table: Seq<Standing<F>>, index: int, standing: Standing<F>)
    requires
        0 <= index < table.len(),
        free(table[index]),
        !free(standing),
    ensures
        vacant(table.update(index, standing)) + 1 == vacant(table),
    decreases table.len(),
{
    let less = table.drop_last();
    let after = table.update(index, standing);
    if index < less.len() {
        taking_a_slot(less, index, standing);
        assert(after.drop_last() =~= less.update(index, standing));
    } else {
        assert(after.drop_last() =~= less);
    }
}

/// Something new has a handle exactly where there is room for it, and takes the
/// room of one.
pub proof fn spawning_takes_room<F>(table: Seq<Standing<F>>, limit: nat, thing: Thing<F>)
    requires
        sound(table, limit),
    ensures
        next_handle(table, limit).some() <==> room_left(table, limit) > 0,
        room_left(table, limit) > 0 ==> room_left(spawned(table, limit, thing), limit) + 1
            == room_left(table, limit),
{
    vacant_is_free(table);
    free_is_first(table);
    let after = spawned(table, limit, thing);
    match first_free(table) {
        Some(index) => {
            assert(table[index].generation >= 1);
            taking_a_slot(
                table,
                index,
                Standing { generation: table[index].generation, thing: Some(thing) },
            );
        },
        None => {
            if table.len() < limit {
                assert(after.drop_last() =~= table);
            }
        },
    }
}

/// Whether a table is another one with several things more in it, under handles
/// of their own, and everything that stood in it as it stood.
pub open spec fn grown<F>(
    before: Seq<Standing<F>>,
    after: Seq<Standing<F>>,
    made: Seq<Handle>,
) -> bool {
    &&& forall|id: Handle| #[trigger] lives(before, id) ==> lives(after, id)
    &&& forall|id: Handle|
        lives(before, id) ==> #[trigger] thing_at(after, id) == thing_at(before, id)
    &&& forall|k: int|
        0 <= k < made.len() ==> lives(after, #[trigger] made[k]) && !lives(before, made[k])
    &&& forall|i: int, j: int| 0 <= i < j < made.len() ==> #[trigger] made[i] != #[trigger] made[j]
    &&& forall|id: Handle| #[trigger] lives(after, id) ==> lives(before, id) || made.contains(id)
}

/// A table grows by what is put in it, and what was put in it before stands as
/// it stood.
pub proof fn spawning_grows<F>(
    before: Seq<Standing<F>>,
    table: Seq<Standing<F>>,
    limit: nat,
    made: Seq<Handle>,
    thing: Thing<F>,
)
    requires
        sound(table, limit),
        grown(before, table, made),
        next_handle(table, limit).some(),
    ensures
        ({
            let after = spawned(table, limit, thing);
            let id = next_handle(table, limit);
            &&& sound(after, limit)
            &&& grown(before, after, made.push(id))
            &&& thing_at(after, id) == thing
            &&& forall|k: int|
                0 <= k < made.len() ==> #[trigger] thing_at(after, made[k]) == thing_at(
                    table,
                    made[k],
                )
        }),
{
    let after = spawned(table, limit, thing);
    let id = next_handle(table, limit);
    let more = made.push(id);
    spawned_is_new(table, limit, thing, id);
    assert forall|other: Handle| #[trigger] lives(before, other) implies lives(after, other) by {
        spawned_is_new(table, limit, thing, other);
    }
    assert forall|other: Handle| lives(before, other) implies #[trigger] thing_at(after, other)
        == thing_at(before, other) by {
        spawned_is_new(table, limit, thing, other);
        assert(lives(table, other));
        assert(thing_at(table, other) == thing_at(before, other));
    }
    assert forall|k: int| 0 <= k < more.len() implies lives(after, #[trigger] more[k]) && !lives(
        before,
        more[k],
    ) by {
        if k < made.len() {
            assert(more[k] == made[k]);
            spawned_is_new(table, limit, thing, made[k]);
        } else {
            if lives(before, id) {
                assert(lives(table, id));
            }
        }
    }
    assert forall|i: int, j: int| 0 <= i < j < more.len() implies #[trigger] more[i]
        != #[trigger] more[j] by {
        assert(more[i] == made[i]);
        assert(lives(table, made[i]));
        if j < made.len() {
            assert(more[j] == made[j]);
        }
    }
    assert forall|other: Handle| #[trigger] lives(after, other) implies lives(before, other)
        || more.contains(other) by {
        spawned_is_new(table, limit, thing, other);
        if other == id {
            assert(more[made.len() as int] == id);
        } else if made.contains(other) {
            let k = choose|k: int| 0 <= k < made.len() && made[k] == other;
            assert(more[k] == other);
        }
    }
    assert forall|k: int| 0 <= k < made.len() implies #[trigger] thing_at(after, made[k])
        == thing_at(table, made[k]) by {
        assert(lives(table, made[k]));
        spawned_is_new(table, limit, thing, made[k]);
    }
}

/// A name is that of what a handle reaches, and nothing for one that reaches
/// nothing; a handle reaches what stands in its slot only under the generation
/// it was given.
pub proof fn a_handle_reaches_its_own_thing<F>(table: Seq<Standing<F>>, id: Handle)
    ensures
        lives(table, id) <==> id.slot < table.len() && table[id.slot as int].generation
            == id.generation && table[id.slot as int].thing is Some,
        lives(table, id) ==> Some(thing_at(table, id)) == table[id.slot as int].thing,
        lives(table, id) ==> name_at(table, id) == thing_at(table, id).name,
        !lives(table, id) ==> name_at(table, id).len() == 0,
{
}

/// There is room for one more thing exactly where a slot stands empty with a
/// generation left, or where there may be more slots; the thing goes to the first
/// such slot under that slot's own generation, and otherwise to a new one at the
/// end.
pub proof fn there_is_room_where_a_slot_is_empty<F>(
    table: Seq<Standing<F>>,
    limit: nat,
    slot: int,
)
    requires
        sound(table, limit),
        0 <= slot < table.len(),
    ensures
        ({
            let next = next_handle(table, limit);
            let empty = table[slot].thing is None && table[slot].generation < u32::MAX;
            &&& empty ==> next.some() && next.slot <= slot
            &&& empty && (forall|i: int|
                0 <= i < slot ==> (#[trigger] table[i]).thing is Some || table[i].generation
                    == u32::MAX) ==> next.slot == slot && next.generation == table[slot].generation
            &&& (forall|i: int|
                0 <= i < table.len() ==> (#[trigger] table[i]).thing is Some || table[i].generation
                    == u32::MAX) && table.len() < limit ==> next.slot == table.len()
                && next.generation == 1
            &&& (forall|i: int|
                0 <= i < table.len() ==> (#[trigger] table[i]).thing is Some || table[i].generation
                    == u32::MAX) && table.len() >= limit ==> !next.some()
        }),
{
    free_is_first(table);
    match first_free(table) {
        None => {
            assert(!free(table[slot]));
        },
        Some(index) => {
            assert(free(table[index]));
            assert(table[index].thing is None);
            if index > slot {
                assert(!free(table[slot]));
            }
        },
    }
}

/// What is taken out of a slot leaves it empty under another generation, so that
/// what was reached by the old handle is never reached by it again.
pub proof fn an_emptied_slot_counts_on<F>(standing: Standing<F>)
    requires
        standing.generation < u32::MAX,
    ensures
        emptied(standing).thing is None,
        standing.thing is Some ==> emptied(standing).generation == standing.generation + 1,
        standing.thing is None ==> emptied(standing) == standing,
{
}

} // verus!
