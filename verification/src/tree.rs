//! Which entity hangs off which.

use vstd::prelude::*;
use vstd::set_lib::*;
use crate::table::{
    despawned, lives, living, next_handle, replaced, sound, spawned, spawned_is_new,
    despawned_is_gone, thing_at, Handle, Standing, Table, Thing,
};
use crate::world::{Entity, EntityId, MAX_ENTITIES};

verus! {

/// The entities of a world.
pub type Entities = Seq<Standing<Entity>>;

/// What an entity hangs off: nothing for one that stands on its own, and for
/// one whose parent is gone.
pub open spec fn parent_of(entities: Entities, id: EntityId) -> EntityId {
    if lives(entities, id) && lives(entities, thing_at(entities, id).facts.parent) {
        thing_at(entities, id).facts.parent
    } else {
        Handle::nothing()
    }
}

/// What stands so many steps above an entity.
pub open spec fn above(entities: Entities, id: EntityId, count: nat) -> EntityId
    decreases count,
{
    if count == 0 {
        id
    } else {
        above(entities, parent_of(entities, id), (count - 1) as nat)
    }
}

/// Whether an entity hangs off another, at any distance.
pub open spec fn below(entities: Entities, child: EntityId, ancestor: EntityId) -> bool {
    &&& ancestor.some()
    &&& exists|count: nat| count > 0 && #[trigger] above(entities, child, count) == ancestor
}

/// Whether a walk up from an entity meets another before it ends, or before
/// it has taken so many steps.
pub open spec fn met(entities: Entities, from: EntityId, ancestor: EntityId, count: nat) -> bool
    decreases count,
{
    if count == 0 || !from.some() {
        false
    } else if from == ancestor {
        true
    } else {
        met(entities, parent_of(entities, from), ancestor, (count - 1) as nat)
    }
}

/// Whether an entity hangs off another, as a walk no longer than the table
/// finds it.
pub open spec fn hangs(entities: Entities, child: EntityId, ancestor: EntityId) -> bool {
    met(entities, parent_of(entities, child), ancestor, MAX_ENTITIES as nat)
}

/// Whether a way to count entities counts every one higher than what it
/// hangs off.
pub open spec fn deepens(entities: Entities, depth: spec_fn(EntityId) -> nat) -> bool {
    forall|id: EntityId|
        lives(entities, id) && parent_of(entities, id).some() ==> depth(
            #[trigger] parent_of(entities, id),
        ) < depth(id)
}

/// Whether no entity hangs off itself, at any distance: every chain has an
/// end.
pub open spec fn rooted(entities: Entities) -> bool {
    exists|depth: spec_fn(EntityId) -> nat| deepens(entities, depth)
}

/// What stands above, one step at a time from the far end.
proof fn above_from_the_end(entities: Entities, id: EntityId, count: nat)
    ensures
        above(entities, id, count + 1) == parent_of(entities, above(entities, id, count)),
    decreases count,
{
    reveal_with_fuel(above, 2);
    if count > 0 {
        above_from_the_end(entities, parent_of(entities, id), (count - 1) as nat);
    }
}

/// Above nothing there is nothing.
pub proof fn nothing_above_nothing(entities: Entities, count: nat, limit: nat)
    requires
        sound(entities, limit),
    ensures
        above(entities, Handle::nothing(), count) == Handle::nothing(),
    decreases count,
{
    if entities.len() > 0 {
        assert(entities[0].generation >= 1);
    }
    if count > 0 {
        nothing_above_nothing(entities, (count - 1) as nat, limit);
    }
}

/// Everything above an entity up to something is alive.
proof fn above_is_alive(entities: Entities, id: EntityId, count: nat, step: nat, limit: nat)
    requires
        sound(entities, limit),
        above(entities, id, count).some(),
        step < count,
    ensures
        lives(entities, above(entities, id, step)),
    decreases step,
{
    if step == 0 {
        if !lives(entities, id) {
            nothing_above_nothing(entities, (count - 1) as nat, limit);
        }
    } else {
        above_is_alive(
            entities,
            parent_of(entities, id),
            (count - 1) as nat,
            (step - 1) as nat,
            limit,
        );
    }
}

/// Further up is less deep.
pub proof fn above_is_less_deep(
    entities: Entities,
    depth: spec_fn(EntityId) -> nat,
    id: EntityId,
    near: nat,
    far: nat,
    limit: nat,
)
    requires
        sound(entities, limit),
        deepens(entities, depth),
        near < far,
        above(entities, id, far).some(),
    ensures
        depth(above(entities, id, far)) < depth(above(entities, id, near)),
    decreases far,
{
    let last = (far - 1) as nat;
    above_from_the_end(entities, id, last);
    above_is_alive(entities, id, far, last, limit);
    let under = above(entities, id, last);
    assert(parent_of(entities, under) == above(entities, id, far));
    assert(depth(parent_of(entities, under)) < depth(under));
    if near < last {
        assert(under.some()) by {
            assert(entities[under.slot as int].generation >= 1);
        }
        above_is_less_deep(entities, depth, id, near, last, limit);
    }
}

/// Numbers below a bound, no two the same, are no more than the bound.
proof fn distinct_below(numbers: Seq<int>, bound: nat)
    requires
        numbers.no_duplicates(),
        forall|i: int| 0 <= i < numbers.len() ==> 0 <= #[trigger] numbers[i] < bound,
    ensures
        numbers.len() <= bound,
{
    numbers.unique_seq_to_set();
    lemma_int_range(0, bound as int);
    assert(numbers.to_set().subset_of(set_int_range(0, bound as int)));
    lemma_len_subset(numbers.to_set(), set_int_range(0, bound as int));
}

/// A chain that ends is no longer than the table.
proof fn chains_are_short(entities: Entities, id: EntityId, count: nat, limit: nat)
    requires
        sound(entities, limit),
        rooted(entities),
        above(entities, id, count).some(),
    ensures
        count <= entities.len(),
{
    let depth = choose|depth: spec_fn(EntityId) -> nat| deepens(entities, depth);
    let slots = Seq::new(count, |i: int| above(entities, id, i as nat).slot as int);
    assert forall|i: int| 0 <= i < slots.len() implies 0 <= #[trigger] slots[i] < entities.len() by {
        above_is_alive(entities, id, count, i as nat, limit);
    }
    assert forall|i: int, j: int| 0 <= i < slots.len() && 0 <= j < slots.len() && i != j implies
        slots[i] != slots[j] by {
        let near = if i < j { i } else { j };
        let far = if i < j { j } else { i };
        above_is_alive(entities, id, count, near as nat, limit);
        above_is_alive(entities, id, count, far as nat, limit);
        let high = above(entities, id, far as nat);
        let low = above(entities, id, near as nat);
        assert(entities[high.slot as int].generation >= 1);
        above_is_less_deep(entities, depth, id, near as nat, far as nat, limit);
        if high.slot == low.slot {
            assert(high == low);
        }
    }
    assert(slots.no_duplicates());
    distinct_below(slots, entities.len());
}

/// A walk that meets something stands under it.
pub proof fn met_is_above(entities: Entities, from: EntityId, ancestor: EntityId, count: nat)
    requires
        met(entities, from, ancestor, count),
    ensures
        ancestor.some(),
        exists|steps: nat| #[trigger] above(entities, from, steps) == ancestor && steps < count,
    decreases count,
{
    if from == ancestor {
        assert(above(entities, from, 0) == ancestor);
    } else {
        let up = parent_of(entities, from);
        met_is_above(entities, up, ancestor, (count - 1) as nat);
        let steps = choose|steps: nat|
            #[trigger] above(entities, up, steps) == ancestor && steps < count - 1;
        assert(above(entities, from, steps + 1) == ancestor);
    }
}

/// A walk long enough meets what stands above.
proof fn above_is_met(
    entities: Entities,
    from: EntityId,
    ancestor: EntityId,
    steps: nat,
    count: nat,
    limit: nat,
)
    requires
        sound(entities, limit),
        ancestor.some(),
        above(entities, from, steps) == ancestor,
        steps < count,
    ensures
        met(entities, from, ancestor, count),
    decreases steps,
{
    if from != ancestor {
        assert(steps > 0);
        above_is_alive(entities, from, steps, 0, limit);
        assert(entities[from.slot as int].generation >= 1);
        above_is_met(
            entities,
            parent_of(entities, from),
            ancestor,
            (steps - 1) as nat,
            (count - 1) as nat,
            limit,
        );
    }
}

/// Where no entity hangs off itself, the walk finds exactly what an entity
/// hangs off, however far.
pub proof fn the_walk_finds_it(entities: Entities, child: EntityId, ancestor: EntityId)
    requires
        sound(entities, MAX_ENTITIES as nat),
        rooted(entities),
    ensures
        hangs(entities, child, ancestor) == below(entities, child, ancestor),
{
    let up = parent_of(entities, child);
    if hangs(entities, child, ancestor) {
        met_is_above(entities, up, ancestor, MAX_ENTITIES as nat);
        let steps = choose|steps: nat|
            #[trigger] above(entities, up, steps) == ancestor && steps < MAX_ENTITIES;
        assert(above(entities, child, steps + 1) == ancestor);
    }
    if below(entities, child, ancestor) {
        let count = choose|count: nat|
            count > 0 && #[trigger] above(entities, child, count) == ancestor;
        chains_are_short(entities, child, count, MAX_ENTITIES as nat);
        above_is_met(
            entities,
            up,
            ancestor,
            (count - 1) as nat,
            MAX_ENTITIES as nat,
            MAX_ENTITIES as nat,
        );
    }
}

/// Where no entity hangs off itself, none does at any distance.
pub proof fn nothing_hangs_off_itself(entities: Entities, id: EntityId)
    requires
        sound(entities, MAX_ENTITIES as nat),
        rooted(entities),
    ensures
        !below(entities, id, id),
        !hangs(entities, id, id),
{
    the_walk_finds_it(entities, id, id);
    if below(entities, id, id) {
        let depth = choose|depth: spec_fn(EntityId) -> nat| deepens(entities, depth);
        let count = choose|count: nat| count > 0 && #[trigger] above(entities, id, count) == id;
        above_is_less_deep(entities, depth, id, 0, count, MAX_ENTITIES as nat);
    }
}

/// What an entity hangs off.
pub fn parent(entities: &Table<Entity>, id: EntityId) -> (result: EntityId)
    ensures
        result == parent_of(entities.view(), id),
{
    match entities.get(id) {
        None => Handle::none(),
        Some(facts) => {
            if entities.alive(facts.parent) {
                facts.parent
            } else {
                Handle::none()
            }
        },
    }
}

/// Whether an entity hangs off another, at any distance.
pub fn hangs_off(entities: &Table<Entity>, child: EntityId, ancestor: EntityId) -> (result: bool)
    ensures
        result == hangs(entities.view(), child, ancestor),
{
    let ghost all = entities.view();
    let mut up: EntityId = parent(entities, child);
    let mut left: usize = MAX_ENTITIES;
    while left > 0
        invariant
            all == entities.view(),
            left <= MAX_ENTITIES,
            hangs(all, child, ancestor) == met(all, up, ancestor, left as nat),
        decreases left,
    {
        if !up.is_some() {
            return false;
        }
        if up == ancestor {
            return true;
        }
        up = parent(entities, up);
        left = left - 1;
    }
    false
}

/// Whether an entity is another than one, and hangs off it.
pub open spec fn hangs_under(entities: Entities, child: EntityId, id: EntityId) -> bool {
    child != id && hangs(entities, child, id)
}

/// Every entity hanging off one, directly or through others, in the order of
/// their slots.
pub open spec fn branch(entities: Entities, id: EntityId) -> Seq<EntityId> {
    if lives(entities, id) {
        living(entities).filter(|child: EntityId| hangs_under(entities, child, id))
    } else {
        Seq::empty()
    }
}

/// Whether an entity is shown: neither its own word nor one above it hides
/// it.
pub open spec fn visible(entities: Entities, id: EntityId, count: nat) -> bool
    decreases count,
{
    if !lives(entities, id) {
        false
    } else if thing_at(entities, id).facts.hidden {
        false
    } else if count == 0 || !parent_of(entities, id).some() {
        true
    } else {
        visible(entities, parent_of(entities, id), (count - 1) as nat)
    }
}

/// Whether an entity is shown.
pub fn shown(entities: &Table<Entity>, id: EntityId) -> (result: bool)
    ensures
        result == visible(entities.view(), id, MAX_ENTITIES as nat),
{
    let ghost all = entities.view();
    let mut at: EntityId = id;
    let mut left: usize = MAX_ENTITIES;
    loop
        invariant
            all == entities.view(),
            visible(all, id, MAX_ENTITIES as nat) == visible(all, at, left as nat),
        decreases left,
    {
        match entities.get(at) {
            None => {
                return false;
            },
            Some(facts) => {
                if facts.hidden {
                    return false;
                }
            },
        }
        let up: EntityId = parent(entities, at);
        if left == 0 || !up.is_some() {
            return true;
        }
        at = up;
        left = left - 1;
    }
}

/// Whether an entity may hang off another, or stand on its own: both alive,
/// not the same, and no loop made.
pub open spec fn may_hang(entities: Entities, child: EntityId, parent: EntityId) -> bool {
    &&& lives(entities, child)
    &&& parent.some() ==> {
        &&& lives(entities, parent)
        &&& parent != child
        &&& !hangs(entities, parent, child)
    }
}

/// Entities with one hung off another.
pub open spec fn hung(entities: Entities, child: EntityId, parent: EntityId) -> Entities {
    replaced(
        entities,
        child,
        Thing {
            facts: Entity { parent, ..thing_at(entities, child).facts },
            ..thing_at(entities, child)
        },
    )
}

/// Hangs an entity off another, or stands it on its own. Whether it was done.
pub fn set_parent(entities: &mut Table<Entity>, child: EntityId, parent: EntityId) -> (result: bool)
    ensures
        result == may_hang(old(entities).view(), child, parent),
        final(entities).view() == if result {
            hung(old(entities).view(), child, parent)
        } else {
            old(entities).view()
        },
        final(entities).room() == old(entities).room(),
{
    match entities.get(child) {
        None => false,
        Some(facts) => {
            if parent.is_some() {
                if !entities.alive(parent) || parent == child {
                    return false;
                }
                if hangs_off(entities, parent, child) {
                    return false;
                }
            }
            entities.set(child, Entity { parent, ..facts });
            true
        },
    }
}

/// Who is alive, and who hangs off whom, once an entity is hung.
pub proof fn hung_parents(entities: Entities, child: EntityId, parent: EntityId, id: EntityId)
    requires
        sound(entities, MAX_ENTITIES as nat),
        may_hang(entities, child, parent),
    ensures
        lives(hung(entities, child, parent), id) == lives(entities, id),
        parent_of(hung(entities, child, parent), id) == if id == child {
            if parent.some() {
                parent
            } else {
                Handle::nothing()
            }
        } else {
            parent_of(entities, id)
        },
{
    let after = hung(entities, child, parent);
    assert forall|other: EntityId| lives(after, other) == lives(entities, other) by {}
    if id == child {
        assert(thing_at(after, id).facts.parent == parent);
        if !parent.some() {
            assert(!lives(after, parent)) by {
                if parent.slot < entities.len() {
                    assert(entities[parent.slot as int].generation >= 1);
                }
            }
        }
    } else if lives(entities, id) {
        assert(id.slot != child.slot);
        assert(thing_at(after, id) == thing_at(entities, id));
    }
}

/// Hanging an entity where it may hang makes no loop.
pub proof fn hanging_keeps_roots(entities: Entities, child: EntityId, parent: EntityId)
    requires
        sound(entities, MAX_ENTITIES as nat),
        rooted(entities),
        may_hang(entities, child, parent),
    ensures
        sound(hung(entities, child, parent), MAX_ENTITIES as nat),
        rooted(hung(entities, child, parent)),
{
    let after = hung(entities, child, parent);
    assert forall|i: int| 0 <= i < after.len() implies (#[trigger] after[i]).generation >= 1 && (
    after[i].thing is Some ==> after[i].generation < u32::MAX) by {
        assert(entities[i].generation >= 1);
    }
    let depth = choose|depth: spec_fn(EntityId) -> nat| deepens(entities, depth);
    let lift: nat = if parent.some() { depth(parent) + 1 } else { 0 };
    let fresh = |id: EntityId|
        if id == child || below(entities, id, child) {
            depth(id) + lift
        } else {
            depth(id)
        };
    assert forall|id: EntityId| lives(after, id) && parent_of(after, id).some() implies fresh(
        #[trigger] parent_of(after, id),
    ) < fresh(id) by {
        hung_parents(entities, child, parent, id);
        if id == child {
            the_walk_finds_it(entities, parent, child);
            assert(!below(entities, parent, child));
            assert(fresh(parent) == depth(parent));
        } else {
            let up = parent_of(entities, id);
            assert(depth(up) < depth(id));
            assert(entities[child.slot as int].generation >= 1);
            if up == child {
                assert(above(entities, id, 1) == child) by {
                    assert(above(entities, up, 0) == up);
                }
                assert(below(entities, id, child));
            } else if below(entities, up, child) {
                let count = choose|count: nat|
                    count > 0 && #[trigger] above(entities, up, count) == child;
                assert(above(entities, id, count + 1) == child);
                assert(below(entities, id, child));
            } else if below(entities, id, child) {
                let count = choose|count: nat|
                    count > 0 && #[trigger] above(entities, id, count) == child;
                assert(above(entities, up, (count - 1) as nat) == child);
                if count == 1 {
                    assert(above(entities, up, 0) == up);
                }
                assert(below(entities, up, child));
            }
        }
    }
    assert(deepens(after, fresh));
}

/// What is hung where it may hang hangs there.
pub proof fn hung_hangs_there(entities: Entities, child: EntityId, parent: EntityId)
    requires
        sound(entities, MAX_ENTITIES as nat),
        may_hang(entities, child, parent),
    ensures
        parent.some() ==> parent_of(hung(entities, child, parent), child) == parent && hangs(
            hung(entities, child, parent),
            child,
            parent,
        ),
        !parent.some() ==> parent_of(hung(entities, child, parent), child) == Handle::nothing(),
{
    hung_parents(entities, child, parent, child);
    reveal_with_fuel(met, 2);
}

/// An entity taken away leaves what hung off it standing on its own, and
/// makes no loop.
pub proof fn despawning_keeps_roots(entities: Entities, id: EntityId)
    requires
        sound(entities, MAX_ENTITIES as nat),
        rooted(entities),
    ensures
        rooted(despawned(entities, id)),
{
    let after = despawned(entities, id);
    let depth = choose|depth: spec_fn(EntityId) -> nat| deepens(entities, depth);
    assert forall|other: EntityId| lives(after, other) && parent_of(after, other).some() implies depth(
        #[trigger] parent_of(after, other),
    ) < depth(other) by {
        despawned_is_gone(entities, MAX_ENTITIES as nat, id, other);
        let up = thing_at(after, other).facts.parent;
        despawned_is_gone(entities, MAX_ENTITIES as nat, id, up);
        assert(parent_of(entities, other) == up);
    }
    assert(deepens(after, depth));
}

/// Whether an entity names as its parent only what is alive, what once was,
/// or nothing: never a handle that is still to be given out.
pub open spec fn parents_known(entities: Entities) -> bool {
    forall|id: EntityId|
        lives(entities, id) ==> known(entities, (#[trigger] thing_at(entities, id)).facts.parent)
}

/// Whether a handle is to something alive, to something that once was, or to
/// nothing.
pub open spec fn known(entities: Entities, id: EntityId) -> bool {
    ||| lives(entities, id)
    ||| !id.some()
    ||| id.slot < entities.len() && id.generation < entities[id.slot as int].generation
}

/// The next handle is none that is known already.
pub proof fn next_is_unknown(entities: Entities, id: EntityId)
    requires
        sound(entities, MAX_ENTITIES as nat),
        known(entities, id),
        id.some(),
    ensures
        id != next_handle(entities, MAX_ENTITIES as nat),
{
    crate::table::free_is_first(entities);
}

/// An entity put in the world standing on its own makes no loop, and changes
/// what nothing else hangs off.
pub proof fn spawning_keeps_roots(entities: Entities, thing: Thing<Entity>)
    requires
        sound(entities, MAX_ENTITIES as nat),
        rooted(entities),
        parents_known(entities),
        !thing.facts.parent.some(),
    ensures
        rooted(spawned(entities, MAX_ENTITIES as nat, thing)),
        parents_known(spawned(entities, MAX_ENTITIES as nat, thing)),
        forall|id: EntityId|
            lives(entities, id) ==> #[trigger] parent_of(
                spawned(entities, MAX_ENTITIES as nat, thing),
                id,
            ) == parent_of(entities, id),
{
    let limit = MAX_ENTITIES as nat;
    let after = spawned(entities, limit, thing);
    let made = next_handle(entities, limit);
    crate::table::free_is_first(entities);
    let depth = choose|depth: spec_fn(EntityId) -> nat| deepens(entities, depth);
    assert forall|id: EntityId| lives(entities, id) implies #[trigger] parent_of(after, id)
        == parent_of(entities, id) by {
        spawned_is_new(entities, limit, thing, id);
        let up = thing_at(entities, id).facts.parent;
        assert(known(entities, up));
        spawned_is_new(entities, limit, thing, up);
        if up.some() {
            next_is_unknown(entities, up);
        } else if up.slot < after.len() {
            assert(after[up.slot as int].generation >= 1);
        }
    }
    assert forall|id: EntityId| lives(after, id) && parent_of(after, id).some() implies depth(
        #[trigger] parent_of(after, id),
    ) < depth(id) by {
        spawned_is_new(entities, limit, thing, id);
        if id == made {
            assert(thing_at(after, id) == thing);
            assert(false) by {
                let up = thing.facts.parent;
                if up.slot < after.len() {
                    assert(after[up.slot as int].generation >= 1);
                }
            }
        } else {
            assert(parent_of(after, id) == parent_of(entities, id));
        }
    }
    assert(deepens(after, depth));
    assert forall|id: EntityId| lives(after, id) implies known(
        after,
        (#[trigger] thing_at(after, id)).facts.parent,
    ) by {
        spawned_is_new(entities, limit, thing, id);
        if id != made {
            let up = thing_at(entities, id).facts.parent;
            assert(known(entities, up));
            spawned_is_new(entities, limit, thing, up);
        }
    }
}

/// Hanging entities and taking them away leaves no parent that is still to
/// be given out.
pub proof fn parents_stay_known(entities: Entities, child: EntityId, parent: EntityId)
    requires
        sound(entities, MAX_ENTITIES as nat),
        parents_known(entities),
    ensures
        may_hang(entities, child, parent) ==> parents_known(hung(entities, child, parent)),
        parents_known(despawned(entities, child)),
{
    let less = despawned(entities, child);
    assert forall|id: EntityId| lives(less, id) implies known(
        less,
        (#[trigger] thing_at(less, id)).facts.parent,
    ) by {
        despawned_is_gone(entities, MAX_ENTITIES as nat, child, id);
        let up = thing_at(entities, id).facts.parent;
        assert(known(entities, up));
        despawned_is_gone(entities, MAX_ENTITIES as nat, child, up);
        if lives(entities, child) {
            assert(entities[child.slot as int].generation < u32::MAX);
        }
    }
    if may_hang(entities, child, parent) {
        let after = hung(entities, child, parent);
        assert forall|id: EntityId| lives(after, id) implies known(
            after,
            (#[trigger] thing_at(after, id)).facts.parent,
        ) by {
            if id != child {
                assert(thing_at(after, id) == thing_at(entities, id));
                assert(known(entities, thing_at(entities, id).facts.parent));
            }
        }
    }
}

/// An entity is shown exactly where it is alive and neither its own word nor that
/// of anything above it, as far as the walk goes, hides it.
pub proof fn shown_where_nothing_above_hides(entities: Entities, id: EntityId, count: nat)
    requires
        sound(entities, MAX_ENTITIES as nat),
    ensures
        visible(entities, id, count) <==> lives(entities, id) && forall|step: nat|
            step <= count && (#[trigger] above(entities, id, step)).some() ==> !thing_at(
                entities,
                above(entities, id, step),
            ).facts.hidden,
    decreases count,
{
    let over = parent_of(entities, id);
    if lives(entities, id) {
        assert(above(entities, id, 0) == id);
        assert(id.some());
        if count > 0 && over.some() {
            let less = (count - 1) as nat;
            shown_where_nothing_above_hides(entities, over, less);
            if visible(entities, id, count) {
                assert forall|step: nat|
                    step <= count && (#[trigger] above(entities, id, step)).some() implies !thing_at(
                    entities,
                    above(entities, id, step),
                ).facts.hidden by {
                    if step > 0 {
                        assert(above(entities, id, step) == above(
                            entities,
                            over,
                            (step - 1) as nat,
                        ));
                    }
                }
            }
            if forall|step: nat|
                step <= count && (#[trigger] above(entities, id, step)).some() ==> !thing_at(
                    entities,
                    above(entities, id, step),
                ).facts.hidden {
                assert forall|step: nat|
                    step <= less && (#[trigger] above(entities, over, step)).some() implies !thing_at(
                    entities,
                    above(entities, over, step),
                ).facts.hidden by {
                    assert(above(entities, id, step + 1) == above(entities, over, step));
                }
            }
        } else {
            assert forall|step: nat|
                step <= count && step > 0 && (#[trigger] above(
                    entities,
                    id,
                    step,
                )).some() implies false by {
                if count > 0 {
                    nothing_above_nothing(entities, (step - 1) as nat, MAX_ENTITIES as nat);
                    assert(above(entities, id, step) == above(entities, over, (step - 1) as nat));
                }
            }
        }
    }
}

/// An entity hung off another changes what it hangs off and nothing else of it,
/// and nothing of any other.
pub proof fn hanging_changes_the_parent_only(
    entities: Entities,
    child: EntityId,
    parent: EntityId,
    id: EntityId,
)
    requires
        lives(entities, child),
    ensures
        ({
            let after = hung(entities, child, parent);
            let was = thing_at(entities, child);
            &&& lives(after, id) == lives(entities, id)
            &&& lives(entities, id) && id != child ==> thing_at(after, id) == thing_at(
                entities,
                id,
            )
            &&& thing_at(after, child) == (Thing {
                facts: Entity { parent, ..was.facts },
                ..was
            })
        }),
{
}

} // verus!
