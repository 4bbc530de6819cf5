//! Groups: entities that stand for everything hanging off them, so that a
//! wall is picked up as a wall.

use vstd::prelude::*;
use crate::edit::{filter_contains, replaced_is_sound, stood};
use crate::make::called;
use crate::select::Pick;
use crate::table::{
    despawned, despawned_is_gone, lives, living, living_resolves, next_handle, sound, spawned,
    spawned_is_new, thing_at, Handle, Table, Thing,
};
use crate::tree::{
    above, above_is_less_deep, deepens, hangs, hangs_off, hung, hung_parents, may_hang,
    nothing_above_nothing, parent, parent_of, parents_known, rooted, set_parent,
    spawning_keeps_roots, the_walk_finds_it, Entities,
};
use crate::world::{plain_entity, Entity, EntityId, Transform, MAX_ENTITIES};

verus! {

/// Whether an entity is a group.
pub open spec fn group_at(entities: Entities, id: EntityId) -> bool {
    lives(entities, id) && thing_at(entities, id).facts.group
}

/// Whether an entity is a group.
pub fn is_group(entities: &Table<Entity>, id: EntityId) -> (result: bool)
    ensures
        result == group_at(entities.view(), id),
{
    match entities.get(id) {
        None => false,
        Some(facts) => facts.group,
    }
}

/// The outermost group a walk up from an entity meets, over one met before,
/// in so many steps.
pub open spec fn outer_from(
    entities: Entities,
    id: EntityId,
    found: Option<EntityId>,
    steps: nat,
) -> Option<EntityId>
    decreases steps,
{
    if steps == 0 || !lives(entities, id) {
        found
    } else {
        outer_from(
            entities,
            parent_of(entities, id),
            if group_at(entities, id) {
                Some(id)
            } else {
                found
            },
            (steps - 1) as nat,
        )
    }
}

/// What a click on something selects: the outermost group around it, or
/// exactly it where there is none.
pub open spec fn around(entities: Entities, pick: Pick) -> Pick {
    match pick {
        Pick::Entity(id) => match outer_from(entities, id, None, MAX_ENTITIES as nat) {
            Some(group) => Pick::Entity(group),
            None => pick,
        },
        _ => pick,
    }
}

/// What a click on something selects: the outermost group around it, or
/// exactly it where there is none.
pub fn grouped(entities: &Table<Entity>, pick: Pick) -> (result: Pick)
    ensures
        result == around(entities.view(), pick),
{
    let start: EntityId = match pick {
        Pick::Entity(id) => id,
        _ => {
            return pick;
        },
    };
    let ghost all = entities.view();
    let ghost want = outer_from(all, start, None, MAX_ENTITIES as nat);
    let mut at: EntityId = start;
    let mut found: Option<EntityId> = None;
    let mut left: usize = MAX_ENTITIES;
    while left > 0 && entities.alive(at)
        invariant
            all == entities.view(),
            left <= MAX_ENTITIES,
            want == outer_from(all, at, found, left as nat),
        decreases left,
    {
        if is_group(entities, at) {
            found = Some(at);
        }
        at = parent(entities, at);
        left = left - 1;
    }
    match found {
        Some(group) => Pick::Entity(group),
        None => pick,
    }
}

/// A walk that meets a group ends with one at or above where it began, and
/// with none above that; one that meets none had none to meet.
proof fn outer_is_outermost(
    entities: Entities,
    id: EntityId,
    found: Option<EntityId>,
    steps: nat,
)
    requires
        sound(entities, MAX_ENTITIES as nat),
    ensures
        match outer_from(entities, id, found, steps) {
            None => found is None && forall|k: nat|
                k < steps ==> !group_at(entities, #[trigger] above(entities, id, k)),
            Some(group) => {
                ||| found == Some(group) && forall|k: nat|
                    k < steps ==> !group_at(entities, #[trigger] above(entities, id, k))
                ||| exists|j: nat|
                    j < steps && #[trigger] above(entities, id, j) == group && group_at(
                        entities,
                        group,
                    ) && forall|k: nat|
                        j < k < steps ==> !group_at(entities, #[trigger] above(entities, id, k))
            },
        },
    decreases steps,
{
    if steps == 0 {
    } else if !lives(entities, id) {
        assert forall|k: nat| k < steps implies !group_at(
            entities,
            #[trigger] above(entities, id, k),
        ) by {
            if k > 0 {
                nothing_above_nothing(entities, (k - 1) as nat, MAX_ENTITIES as nat);
                assert(parent_of(entities, id) == Handle::nothing());
                if entities.len() > 0 {
                    assert(entities[0].generation >= 1);
                }
            }
        }
    } else {
        let up = parent_of(entities, id);
        let less = (steps - 1) as nat;
        let over = if group_at(entities, id) { Some(id) } else { found };
        outer_is_outermost(entities, up, over, less);
        assert forall|k: nat| 0 < k < steps implies #[trigger] above(entities, id, k) == above(
            entities,
            up,
            (k - 1) as nat,
        ) by {}
        assert(above(entities, id, 0) == id);
        match outer_from(entities, up, over, less) {
            None => {
                assert forall|k: nat| k < steps implies !group_at(
                    entities,
                    #[trigger] above(entities, id, k),
                ) by {
                    if k > 0 {
                        assert(!group_at(entities, above(entities, up, (k - 1) as nat)));
                    }
                }
            },
            Some(group) => {
                if over == Some(group) && forall|k: nat|
                    k < less ==> !group_at(entities, #[trigger] above(entities, up, k)) {
                    assert forall|k: nat| 0 < k < steps implies !group_at(
                        entities,
                        #[trigger] above(entities, id, k),
                    ) by {
                        assert(!group_at(entities, above(entities, up, (k - 1) as nat)));
                    }
                    if group_at(entities, id) {
                        assert(above(entities, id, 0) == group);
                    }
                } else {
                    let j = choose|j: nat|
                        j < less && #[trigger] above(entities, up, j) == group && group_at(
                            entities,
                            group,
                        ) && forall|k: nat|
                            j < k < less ==> !group_at(entities, #[trigger] above(entities, up, k));
                    assert(above(entities, id, j + 1) == group);
                    assert forall|k: nat| j + 1 < k < steps implies !group_at(
                        entities,
                        #[trigger] above(entities, id, k),
                    ) by {
                        assert(!group_at(entities, above(entities, up, (k - 1) as nat)));
                    }
                }
            },
        }
    }
}

/// A click takes the outermost group: it stands at or above what was clicked
/// with no group above it, and only what stands in no group is taken alone.
pub proof fn a_click_takes_the_outermost_group(entities: Entities, id: EntityId)
    requires
        sound(entities, MAX_ENTITIES as nat),
    ensures
        match around(entities, Pick::Entity(id)) {
            Pick::Entity(taken) => {
                ||| taken == id && forall|k: nat|
                    k < MAX_ENTITIES ==> !group_at(entities, #[trigger] above(entities, id, k))
                ||| exists|j: nat|
                    j < MAX_ENTITIES && #[trigger] above(entities, id, j) == taken && group_at(
                        entities,
                        taken,
                    ) && forall|k: nat|
                        j < k < MAX_ENTITIES ==> !group_at(
                            entities,
                            #[trigger] above(entities, id, k),
                        )
            },
            _ => false,
        },
{
    outer_is_outermost(entities, id, None, MAX_ENTITIES as nat);
}

/// Where an entity is to stand once it hangs somewhere else, if that was
/// said.
pub open spec fn place_for(insides: Seq<(EntityId, Transform)>, id: EntityId) -> Option<Transform>
    decreases insides.len(),
{
    if insides.len() == 0 {
        None
    } else if insides[0].0 == id {
        Some(insides[0].1)
    } else {
        place_for(insides.drop_first(), id)
    }
}

/// Where an entity is to stand once it hangs somewhere else, if that was
/// said.
fn place_of(insides: &Vec<(EntityId, Transform)>, id: EntityId) -> (result: Option<Transform>)
    ensures
        result == place_for(insides@, id),
{
    let ghost all = insides@;
    let mut i: usize = 0;
    assert(all.skip(0) =~= all);
    while i < insides.len()
        invariant
            i <= insides@.len(),
            all == insides@,
            place_for(all, id) == place_for(all.skip(i as int), id),
        decreases insides@.len() - i,
    {
        assert(all.skip(i as int)[0] == all[i as int]);
        assert(all.skip(i as int).drop_first() =~= all.skip(i as int + 1));
        if insides[i].0 == id {
            return Some(insides[i].1);
        }
        i = i + 1;
    }
    assert(all.skip(i as int) =~= Seq::empty());
    None
}

/// Entities with one hung off another where it may be, standing where it is
/// said to.
pub open spec fn put_under(
    entities: Entities,
    child: EntityId,
    parent: EntityId,
    inside: Option<Transform>,
) -> Entities {
    if may_hang(entities, child, parent) {
        let there = hung(entities, child, parent);
        match inside {
            Some(transform) => stood(there, child, transform),
            None => there,
        }
    } else {
        entities
    }
}

/// What is put under another stands as the table stands, lives as it lived,
/// and hangs off what it was hung off; nothing else is hung off another.
pub proof fn put_under_hangs(
    entities: Entities,
    child: EntityId,
    parent: EntityId,
    inside: Option<Transform>,
)
    requires
        sound(entities, MAX_ENTITIES as nat),
    ensures
        ({
            let after = put_under(entities, child, parent, inside);
            &&& sound(after, MAX_ENTITIES as nat)
            &&& forall|id: EntityId| #[trigger] lives(after, id) == lives(entities, id)
            &&& forall|id: EntityId| #[trigger]
                parent_of(after, id) == if id == child && may_hang(entities, child, parent) {
                    if parent.some() {
                        parent
                    } else {
                        Handle::nothing()
                    }
                } else {
                    parent_of(entities, id)
                }
            &&& forall|id: EntityId| #[trigger] group_at(after, id) == group_at(entities, id)
        }),
{
    if may_hang(entities, child, parent) {
        let was = thing_at(entities, child);
        let there = hung(entities, child, parent);
        replaced_is_sound(
            entities,
            MAX_ENTITIES as nat,
            child,
            Thing { facts: Entity { parent, ..was.facts }, ..was },
        );
        assert forall|id: EntityId| #[trigger] parent_of(there, id) == if id == child {
            if parent.some() {
                parent
            } else {
                Handle::nothing()
            }
        } else {
            parent_of(entities, id)
        } by {
            hung_parents(entities, child, parent, id);
        }
        match inside {
            Some(transform) => {
                let now = thing_at(there, child);
                replaced_is_sound(
                    there,
                    MAX_ENTITIES as nat,
                    child,
                    Thing { facts: Entity { transform, ..now.facts }, ..now },
                );
                let after = stood(there, child, transform);
                assert forall|id: EntityId| #[trigger]
                    parent_of(after, id) == parent_of(there, id) by {
                    assert(lives(after, id) == lives(there, id));
                    if lives(there, id) {
                        assert(thing_at(after, id).facts.parent == thing_at(there, id).facts.parent);
                    }
                }
            },
            None => {},
        }
    }
}

/// Hangs an entity off another where it may be, standing where it is said to.
fn put(
    entities: &mut Table<Entity>,
    child: EntityId,
    parent: EntityId,
    inside: Option<Transform>,
)
    requires
        old(entities).wf(),
        old(entities).room() == MAX_ENTITIES,
    ensures
        final(entities).wf(),
        final(entities).room() == MAX_ENTITIES,
        final(entities).view() == put_under(old(entities).view(), child, parent, inside),
{
    let ghost was = entities.view();
    proof {
        put_under_hangs(was, child, parent, inside);
        put_under_hangs(was, child, parent, None);
    }
    if set_parent(entities, child, parent) {
        match inside {
            None => {},
            Some(transform) => {
                match entities.get(child) {
                    None => {},
                    Some(facts) => {
                        entities.set(child, Entity { transform, ..facts });
                    },
                }
            },
        }
    }
}

/// Whether a pick is an entity that no other of the picks has hanging off it:
/// what hangs off one comes along with it.
pub open spec fn topmost(entities: Entities, picks: Seq<Pick>, at: int) -> bool {
    match picks[at] {
        Pick::Entity(id) => lives(entities, id) && forall|j: int|
            0 <= j < picks.len() ==> match #[trigger] picks[j] {
                Pick::Entity(other) => !hangs(entities, id, other),
                _ => true,
            },
        _ => false,
    }
}

/// Whether a pick is an entity that no other of the picks has hanging off it.
fn is_topmost(entities: &Table<Entity>, picks: &Vec<Pick>, at: usize) -> (result: bool)
    requires
        at < picks@.len(),
    ensures
        result == topmost(entities.view(), picks@, at as int),
{
    let id: EntityId = match picks[at] {
        Pick::Entity(id) => id,
        _ => {
            return false;
        },
    };
    if !entities.alive(id) {
        return false;
    }
    let mut j: usize = 0;
    while j < picks.len()
        invariant
            j <= picks@.len(),
            at < picks@.len(),
            picks@[at as int] == Pick::Entity(id),
            forall|k: int|
                0 <= k < j ==> match #[trigger] picks@[k] {
                    Pick::Entity(other) => !hangs(entities.view(), id, other),
                    _ => true,
                },
        decreases picks@.len() - j,
    {
        match picks[j] {
            Pick::Entity(other) => {
                if hangs_off(entities, id, other) {
                    assert(picks@[j as int] == Pick::Entity(other));
                    return false;
                }
            },
            _ => {},
        }
        j = j + 1;
    }
    true
}

/// Entities with the topmost of the first so many picks put under a group.
pub open spec fn gathered_under(
    was: Entities,
    entities: Entities,
    picks: Seq<Pick>,
    group: EntityId,
    insides: Seq<(EntityId, Transform)>,
    count: nat,
) -> Entities
    decreases count,
{
    if count == 0 {
        entities
    } else {
        let so_far = gathered_under(was, entities, picks, group, insides, (count - 1) as nat);
        match picks[count - 1] {
            Pick::Entity(id) => if topmost(was, picks, count - 1) {
                put_under(so_far, id, group, place_for(insides, id))
            } else {
                so_far
            },
            _ => so_far,
        }
    }
}

/// What a group is before anything is in it.
pub open spec fn new_group(standing: Transform) -> Thing<Entity> {
    called("group"@, Entity { group: true, ..plain_entity(standing) })
}

/// Entities once those picked were put into a new group, and what of it is
/// selected: nothing where there was no room for it.
pub open spec fn grouped_up(
    entities: Entities,
    picks: Seq<Pick>,
    standing: Transform,
    insides: Seq<(EntityId, Transform)>,
) -> (Entities, Seq<Pick>) {
    let group = next_handle(entities, MAX_ENTITIES as nat);
    if group.some() {
        (
            gathered_under(
                entities,
                spawned(entities, MAX_ENTITIES as nat, new_group(standing)),
                picks,
                group,
                insides,
                picks.len(),
            ),
            seq![Pick::Entity(group)],
        )
    } else {
        (entities, Seq::empty())
    }
}

/// Puts the entities picked into a new group that stands somewhere, where
/// `insides` are their places seen from it. The group, or nothing where there
/// is no room for one.
pub fn group(
    entities: &mut Table<Entity>,
    picks: &Vec<Pick>,
    standing: Transform,
    insides: &Vec<(EntityId, Transform)>,
) -> (result: Vec<Pick>)
    requires
        old(entities).wf(),
        old(entities).room() == MAX_ENTITIES,
    ensures
        final(entities).wf(),
        final(entities).room() == MAX_ENTITIES,
        (final(entities).view(), result@) == grouped_up(
            old(entities).view(),
            picks@,
            standing,
            insides@,
        ),
{
    let ghost was = entities.view();
    let mut members: Vec<bool> = Vec::new();
    let mut i: usize = 0;
    while i < picks.len()
        invariant
            i <= picks@.len(),
            entities.view() == was,
            entities.wf(),
            entities.room() == MAX_ENTITIES,
            members@.len() == i,
            forall|k: int|
                0 <= k < i ==> #[trigger] members@[k] == topmost(was, picks@, k),
        decreases picks@.len() - i,
    {
        let member: bool = is_topmost(entities, picks, i);
        members.push(member);
        i = i + 1;
    }
    let facts: Entity = Entity { group: true, ..Entity::plain(standing) };
    let notes: Vec<String> = Vec::new();
    assert(crate::table::texts(notes@) =~= Seq::empty());
    let made: EntityId = entities.spawn("group", notes, facts);
    let mut result: Vec<Pick> = Vec::new();
    if !made.is_some() {
        proof {
            spawned_is_new(was, MAX_ENTITIES as nat, new_group(standing), made);
            assert(result@ =~= Seq::empty());
        }
        return result;
    }
    let ghost start = entities.view();
    let mut k: usize = 0;
    while k < picks.len()
        invariant
            k <= picks@.len(),
            members@.len() == picks@.len(),
            forall|j: int|
                0 <= j < picks@.len() ==> #[trigger] members@[j] == topmost(was, picks@, j),
            entities.wf(),
            entities.room() == MAX_ENTITIES,
            entities.view() == gathered_under(was, start, picks@, made, insides@, k as nat),
        decreases picks@.len() - k,
    {
        if members[k] {
            match picks[k] {
                Pick::Entity(id) => {
                    put(entities, id, made, place_of(insides, id));
                },
                _ => {},
            }
        }
        k = k + 1;
    }
    result.push(Pick::Entity(made));
    assert(result@ =~= seq![Pick::Entity(made)]);
    result
}

/// While entities are gathered under a group it stands on its own, nothing
/// dies, and every topmost pick so far hangs off it.
proof fn gathering_keeps(
    was: Entities,
    entities: Entities,
    picks: Seq<Pick>,
    group: EntityId,
    insides: Seq<(EntityId, Transform)>,
    count: nat,
)
    requires
        count <= picks.len(),
        sound(entities, MAX_ENTITIES as nat),
        group.some(),
        lives(entities, group),
        !lives(was, group),
        parent_of(entities, group) == Handle::nothing(),
        forall|id: EntityId| lives(was, id) ==> #[trigger] lives(entities, id),
    ensures
        ({
            let after = gathered_under(was, entities, picks, group, insides, count);
            &&& sound(after, MAX_ENTITIES as nat)
            &&& forall|id: EntityId| #[trigger] lives(after, id) == lives(entities, id)
            &&& parent_of(after, group) == Handle::nothing()
            &&& forall|id: EntityId| #[trigger] group_at(after, id) == group_at(entities, id)
            &&& forall|i: int|
                0 <= i < count && topmost(was, picks, i) ==> parent_of(
                    after,
                    (#[trigger] picks[i])->Entity_0,
                ) == group
            &&& forall|id: EntityId|
                (forall|i: int| 0 <= i < count ==> #[trigger] picks[i] != Pick::Entity(id))
                    ==> #[trigger] parent_of(after, id) == parent_of(entities, id)
        }),
    decreases count,
{
    if count > 0 {
        let less = (count - 1) as nat;
        gathering_keeps(was, entities, picks, group, insides, less);
        let so_far = gathered_under(was, entities, picks, group, insides, less);
        let after = gathered_under(was, entities, picks, group, insides, count);
        match picks[count - 1] {
            Pick::Entity(id) => {
                if topmost(was, picks, count - 1) {
                    assert(lives(entities, id));
                    assert(lives(so_far, id) && lives(so_far, group));
                    assert(!hangs(so_far, group, id)) by {
                        assert(!Handle::nothing().some());
                    }
                    assert(may_hang(so_far, id, group));
                    put_under_hangs(so_far, id, group, place_for(insides, id));
                    assert forall|i: int|
                        0 <= i < count && topmost(was, picks, i) implies parent_of(
                        after,
                        (#[trigger] picks[i])->Entity_0,
                    ) == group by {
                        let member = picks[i]->Entity_0;
                        if member != id {
                            assert(parent_of(so_far, member) == group);
                        }
                    }
                }
            },
            _ => {},
        }
        assert forall|id: EntityId|
            (forall|i: int| 0 <= i < count ==> #[trigger] picks[i] != Pick::Entity(id))
                implies #[trigger] parent_of(after, id) == parent_of(entities, id) by {
            assert(picks[count - 1] != Pick::Entity(id));
            assert(parent_of(so_far, id) == parent_of(entities, id));
        }
    }
}

/// A group holds what was picked: it is new, it is a group, it stands on its
/// own, every topmost entity picked hangs off it, and what was not picked
/// hangs off what it hung off.
pub proof fn a_group_holds_what_was_picked(
    entities: Entities,
    picks: Seq<Pick>,
    standing: Transform,
    insides: Seq<(EntityId, Transform)>,
)
    requires
        sound(entities, MAX_ENTITIES as nat),
        rooted(entities),
        parents_known(entities),
        next_handle(entities, MAX_ENTITIES as nat).some(),
    ensures
        ({
            let (after, made) = grouped_up(entities, picks, standing, insides);
            let group = next_handle(entities, MAX_ENTITIES as nat);
            &&& made == seq![Pick::Entity(group)]
            &&& !lives(entities, group) && group_at(after, group)
            &&& parent_of(after, group) == Handle::nothing()
            &&& forall|i: int|
                0 <= i < picks.len() && topmost(entities, picks, i) ==> parent_of(
                    after,
                    (#[trigger] picks[i])->Entity_0,
                ) == group
            &&& forall|id: EntityId|
                lives(entities, id) && (forall|i: int|
                    0 <= i < picks.len() ==> #[trigger] picks[i] != Pick::Entity(id))
                    ==> #[trigger] parent_of(after, id) == parent_of(entities, id)
        }),
{
    let group = next_handle(entities, MAX_ENTITIES as nat);
    let thing = new_group(standing);
    let start = spawned(entities, MAX_ENTITIES as nat, thing);
    spawned_is_new(entities, MAX_ENTITIES as nat, thing, group);
    spawning_keeps_roots(entities, thing);
    assert forall|id: EntityId| lives(entities, id) implies #[trigger] lives(start, id) by {
        spawned_is_new(entities, MAX_ENTITIES as nat, thing, id);
    }
    assert(parent_of(start, group) == Handle::nothing()) by {
        if start.len() > 0 {
            assert(start[0].generation >= 1);
        }
    }
    gathering_keeps(entities, start, picks, group, insides, picks.len());
}

/// What hangs right off an entity.
pub open spec fn children_of(entities: Entities, id: EntityId) -> Seq<EntityId> {
    living(entities).filter(|child: EntityId| parent_of(entities, child) == id)
}

/// Entities with the first so many of several let go from where they hung.
pub open spec fn let_go(
    entities: Entities,
    children: Seq<EntityId>,
    parent: EntityId,
    insides: Seq<(EntityId, Transform)>,
    count: nat,
) -> Entities
    decreases count,
{
    if count == 0 {
        entities
    } else {
        put_under(
            let_go(entities, children, parent, insides, (count - 1) as nat),
            children[count - 1],
            parent,
            place_for(insides, children[count - 1]),
        )
    }
}

/// Entities with a group taken apart: what was in it hangs off what the group
/// hung off, and the empty group is gone.
pub open spec fn taken_apart(
    entities: Entities,
    group: EntityId,
    insides: Seq<(EntityId, Transform)>,
) -> Entities {
    let children = children_of(entities, group);
    despawned(
        let_go(entities, children, parent_of(entities, group), insides, children.len()),
        group,
    )
}

/// Entities once the groups among the first so many picks were taken apart,
/// and what was in them, in order.
pub open spec fn ungrouped(
    entities: Entities,
    picks: Seq<Pick>,
    insides: Seq<(EntityId, Transform)>,
    count: nat,
) -> (Entities, Seq<EntityId>)
    decreases count,
{
    if count == 0 {
        (entities, Seq::empty())
    } else {
        let (so_far, released) = ungrouped(entities, picks, insides, (count - 1) as nat);
        match picks[count - 1] {
            Pick::Entity(id) => if group_at(so_far, id) {
                (taken_apart(so_far, id, insides), released + children_of(so_far, id))
            } else {
                (so_far, released)
            },
            _ => (so_far, released),
        }
    }
}

/// What hangs right off an entity.
pub fn children(entities: &Table<Entity>, id: EntityId) -> (result: Vec<EntityId>)
    requires
        entities.wf(),
    ensures
        result@ == children_of(entities.view(), id),
{
    let ids: Vec<EntityId> = entities.ids();
    let ghost all = ids@;
    let ghost wanted = |child: EntityId| parent_of(entities.view(), child) == id;
    let mut found: Vec<EntityId> = Vec::new();
    let mut i: usize = 0;
    proof {
        reveal(Seq::filter);
        assert(all.take(0).filter(wanted) =~= Seq::empty());
    }
    while i < ids.len()
        invariant
            i <= ids@.len(),
            all == ids@,
            wanted == (|child: EntityId| parent_of(entities.view(), child) == id),
            found@ == all.take(i as int).filter(wanted),
        decreases ids@.len() - i,
    {
        proof {
            reveal(Seq::filter);
            assert(all.take(i as int + 1).drop_last() =~= all.take(i as int));
            assert(all.take(i as int + 1).last() == all[i as int]);
        }
        if parent(entities, ids[i]) == id {
            found.push(ids[i]);
        }
        i = i + 1;
    }
    assert(all.take(i as int) =~= all);
    found
}

/// Takes a group apart. What was in it.
fn take_apart(
    entities: &mut Table<Entity>,
    group: EntityId,
    insides: &Vec<(EntityId, Transform)>,
) -> (result: Vec<EntityId>)
    requires
        old(entities).wf(),
        old(entities).room() == MAX_ENTITIES,
    ensures
        final(entities).wf(),
        final(entities).room() == MAX_ENTITIES,
        final(entities).view() == taken_apart(old(entities).view(), group, insides@),
        result@ == children_of(old(entities).view(), group),
{
    let ghost was = entities.view();
    let inner: Vec<EntityId> = children(entities, group);
    let above: EntityId = parent(entities, group);
    let mut i: usize = 0;
    while i < inner.len()
        invariant
            i <= inner@.len(),
            entities.wf(),
            entities.room() == MAX_ENTITIES,
            entities.view() == let_go(was, inner@, above, insides@, i as nat),
        decreases inner@.len() - i,
    {
        put(entities, inner[i], above, place_of(insides, inner[i]));
        i = i + 1;
    }
    entities.despawn(group);
    inner
}

/// What of several handles is still alive, as picks.
pub open spec fn still_there(entities: Entities, ids: Seq<EntityId>) -> Seq<Pick>
    decreases ids.len(),
{
    if ids.len() == 0 {
        Seq::empty()
    } else {
        let so_far = still_there(entities, ids.drop_last());
        if lives(entities, ids.last()) {
            so_far.push(Pick::Entity(ids.last()))
        } else {
            so_far
        }
    }
}

/// Takes the groups picked apart, where `insides` are the places of what was
/// in them seen from what it hangs off then. What was in them and is still
/// there.
pub fn ungroup(
    entities: &mut Table<Entity>,
    picks: &Vec<Pick>,
    insides: &Vec<(EntityId, Transform)>,
) -> (result: Vec<Pick>)
    requires
        old(entities).wf(),
        old(entities).room() == MAX_ENTITIES,
    ensures
        final(entities).wf(),
        final(entities).room() == MAX_ENTITIES,
        ({
            let (after, released) = ungrouped(
                old(entities).view(),
                picks@,
                insides@,
                picks@.len(),
            );
            &&& final(entities).view() == after
            &&& result@ == still_there(after, released)
        }),
{
    let ghost was = entities.view();
    let mut released: Vec<EntityId> = Vec::new();
    let mut i: usize = 0;
    assert(released@ =~= Seq::empty());
    while i < picks.len()
        invariant
            i <= picks@.len(),
            entities.wf(),
            entities.room() == MAX_ENTITIES,
            (entities.view(), released@) == ungrouped(was, picks@, insides@, i as nat),
        decreases picks@.len() - i,
    {
        match picks[i] {
            Pick::Entity(id) => {
                if is_group(entities, id) {
                    let ghost before = released@;
                    let mut inner: Vec<EntityId> = take_apart(entities, id, insides);
                    let ghost more = inner@;
                    released.append(&mut inner);
                    assert(released@ =~= before + more);
                }
            },
            _ => {},
        }
        i = i + 1;
    }
    let ghost all = released@;
    let mut result: Vec<Pick> = Vec::new();
    let mut k: usize = 0;
    assert(all.take(0) =~= Seq::empty());
    assert(result@ =~= Seq::empty());
    while k < released.len()
        invariant
            k <= released@.len(),
            all == released@,
            result@ == still_there(entities.view(), all.take(k as int)),
        decreases released@.len() - k,
    {
        proof {
            assert(all.take(k as int + 1).drop_last() =~= all.take(k as int));
            assert(all.take(k as int + 1).last() == all[k as int]);
        }
        if entities.alive(released[k]) {
            result.push(Pick::Entity(released[k]));
        }
        k = k + 1;
    }
    assert(all.take(k as int) =~= all);
    result
}

/// While what was in a group is let go nothing dies, no loop is made, and
/// what was let go hangs off what the group hung off.
proof fn letting_go_lands(
    entities: Entities,
    group: EntityId,
    insides: Seq<(EntityId, Transform)>,
    count: nat,
    depth: spec_fn(EntityId) -> nat,
)
    requires
        sound(entities, MAX_ENTITIES as nat),
        lives(entities, group),
        deepens(entities, depth),
        count <= children_of(entities, group).len(),
    ensures
        ({
            let children = children_of(entities, group);
            let parent = parent_of(entities, group);
            let after = let_go(entities, children, parent, insides, count);
            &&& sound(after, MAX_ENTITIES as nat)
            &&& forall|id: EntityId| #[trigger] lives(after, id) == lives(entities, id)
            &&& deepens(after, depth)
            &&& forall|i: int|
                0 <= i < count ==> parent_of(after, #[trigger] children[i]) == parent
            &&& forall|id: EntityId|
                parent_of(entities, id) != group ==> #[trigger] parent_of(after, id) == parent_of(
                    entities,
                    id,
                )
        }),
    decreases count,
{
    let children = children_of(entities, group);
    let parent = parent_of(entities, group);
    if count > 0 {
        let less = (count - 1) as nat;
        letting_go_lands(entities, group, insides, less, depth);
        let so_far = let_go(entities, children, parent, insides, less);
        let after = let_go(entities, children, parent, insides, count);
        let child = children[count - 1];
        assert(lives(entities, child) && parent_of(entities, child) == group) by {
            let wanted = |child: EntityId| parent_of(entities, child) == group;
            filter_contains(living(entities), wanted);
            living_resolves(entities);
            assert(children.contains(child));
        }
        assert(group.some()) by {
            assert(entities[group.slot as int].generation >= 1);
        }
        assert(depth(parent_of(entities, child)) < depth(child));
        if parent.some() {
            assert(lives(entities, parent));
            assert(lives(so_far, parent));
            assert(depth(parent_of(entities, group)) < depth(group));
            assert(!hangs(so_far, parent, child)) by {
                if hangs(so_far, parent, child) {
                    assert(rooted(so_far));
                    the_walk_finds_it(so_far, parent, child);
                    let steps = choose|steps: nat|
                        steps > 0 && #[trigger] above(so_far, parent, steps) == child;
                    above_is_less_deep(so_far, depth, parent, 0, steps, MAX_ENTITIES as nat);
                }
            }
        }
        assert(lives(so_far, child));
        assert(may_hang(so_far, child, parent));
        put_under_hangs(so_far, child, parent, place_for(insides, child));
        assert forall|id: EntityId| lives(after, id) && parent_of(after, id).some() implies depth(
            #[trigger] parent_of(after, id),
        ) < depth(id) by {
            if id != child {
                assert(parent_of(after, id) == parent_of(so_far, id));
                assert(lives(so_far, id));
            }
        }
        assert forall|i: int| 0 <= i < count implies parent_of(after, #[trigger] children[i])
            == parent by {
            if children[i] != child {
                assert(parent_of(so_far, children[i]) == parent);
            }
        }
    }
}

/// A group taken apart is gone and leaves everything that was in it: it hangs
/// off what the group hung off, and everything else hangs where it did.
pub proof fn a_group_taken_apart_is_gone(
    entities: Entities,
    group: EntityId,
    insides: Seq<(EntityId, Transform)>,
    id: EntityId,
)
    requires
        sound(entities, MAX_ENTITIES as nat),
        rooted(entities),
        group_at(entities, group),
        id != group,
        lives(entities, id),
    ensures
        ({
            let after = taken_apart(entities, group, insides);
            &&& !lives(after, group)
            &&& lives(after, id)
            &&& parent_of(after, id) == if parent_of(entities, id) == group {
                parent_of(entities, group)
            } else {
                parent_of(entities, id)
            }
        }),
{
    let children = children_of(entities, group);
    let parent = parent_of(entities, group);
    let depth = choose|depth: spec_fn(EntityId) -> nat| deepens(entities, depth);
    letting_go_lands(entities, group, insides, children.len(), depth);
    let freed = let_go(entities, children, parent, insides, children.len());
    let after = despawned(freed, group);
    despawned_is_gone(freed, MAX_ENTITIES as nat, group, id);
    despawned_is_gone(freed, MAX_ENTITIES as nat, group, group);
    assert(lives(freed, id) == lives(entities, id));
    let up = thing_at(after, id).facts.parent;
    despawned_is_gone(freed, MAX_ENTITIES as nat, group, up);
    assert(group.some()) by {
        assert(entities[group.slot as int].generation >= 1);
    }
    if parent_of(entities, id) == group {
        let wanted = |child: EntityId| parent_of(entities, child) == group;
        filter_contains(living(entities), wanted);
        living_resolves(entities);
        assert(living(entities).contains(id));
        assert(children.contains(id));
        let i = choose|i: int| 0 <= i < children.len() && children[i] == id;
        assert(parent_of(freed, children[i]) == parent);
        assert(parent != group) by {
            if parent.some() {
                assert(depth(parent_of(entities, group)) < depth(group));
            }
        }
    } else {
        assert(parent_of(freed, id) == parent_of(entities, id));
    }
}

/// Whether one place is where an entity is said to stand, or another where that
/// is not said: the first place that is said of it.
pub open spec fn placed_by(
    insides: Seq<(EntityId, Transform)>,
    id: EntityId,
    was: Transform,
    now: Transform,
) -> bool {
    ||| exists|k: int|
        0 <= k < insides.len() && #[trigger] insides[k] == (id, now) && forall|j: int|
            0 <= j < k ==> (#[trigger] insides[j]).0 != id
    ||| now == was && forall|k: int| 0 <= k < insides.len() ==> (#[trigger] insides[k]).0 != id
}

/// Where an entity is to stand is where it is said to.
proof fn placed_for(insides: Seq<(EntityId, Transform)>, id: EntityId, was: Transform)
    ensures
        placed_by(
            insides,
            id,
            was,
            match place_for(insides, id) {
                Some(place) => place,
                None => was,
            },
        ),
    decreases insides.len(),
{
    if insides.len() > 0 {
        if insides[0].0 == id {
            assert(insides[0] == (id, insides[0].1));
        } else {
            let less = insides.drop_first();
            placed_for(less, id, was);
            match place_for(less, id) {
                Some(place) => {
                    if exists|k: int|
                        0 <= k < less.len() && #[trigger] less[k] == (id, place) && forall|j: int|
                            0 <= j < k ==> (#[trigger] less[j]).0 != id {
                        let k = choose|k: int|
                            0 <= k < less.len() && #[trigger] less[k] == (id, place) && forall|j:
                                int| 0 <= j < k ==> (#[trigger] less[j]).0 != id;
                        assert(insides[k + 1] == (id, place));
                        assert forall|j: int| 0 <= j < k + 1 implies (#[trigger] insides[j]).0
                            != id by {
                            if j > 0 {
                                assert(insides[j] == less[j - 1]);
                            }
                        }
                    } else {
                        said_somewhere(less, id);
                    }
                },
                None => {
                    nowhere_said(less, id);
                    assert forall|k: int| 0 <= k < insides.len() implies (#[trigger] insides[k]).0
                        != id by {
                        if k > 0 {
                            assert(insides[k] == less[k - 1]);
                        }
                    }
                },
            }
        }
    }
}

/// A place that is said of an entity is said somewhere.
proof fn said_somewhere(insides: Seq<(EntityId, Transform)>, id: EntityId)
    requires
        place_for(insides, id) is Some,
    ensures
        exists|k: int| 0 <= k < insides.len() && (#[trigger] insides[k]).0 == id,
    decreases insides.len(),
{
    if insides[0].0 != id {
        let less = insides.drop_first();
        said_somewhere(less, id);
        let k = choose|k: int| 0 <= k < less.len() && (#[trigger] less[k]).0 == id;
        assert(insides[k + 1].0 == id);
    }
}

/// A place that is not said of an entity is said nowhere.
proof fn nowhere_said(insides: Seq<(EntityId, Transform)>, id: EntityId)
    requires
        place_for(insides, id) is None,
    ensures
        forall|k: int| 0 <= k < insides.len() ==> (#[trigger] insides[k]).0 != id,
    decreases insides.len(),
{
    if insides.len() > 0 {
        let less = insides.drop_first();
        nowhere_said(less, id);
        assert forall|k: int| 0 <= k < insides.len() implies (#[trigger] insides[k]).0 != id by {
            if k > 0 {
                assert(insides[k] == less[k - 1]);
            }
        }
    }
}

/// Whether a thing is another but for what it hangs off and where it stands.
pub open spec fn same_but_place(was: Thing<Entity>, now: Thing<Entity>) -> bool {
    &&& now.name == was.name
    &&& now.notes == was.notes
    &&& now.sheets == was.sheets
    &&& now.facts == (Entity {
        parent: now.facts.parent,
        transform: now.facts.transform,
        ..was.facts
    })
}

/// Putting an entity under another changes what it hangs off and where it
/// stands, and nothing else of it or of anything else.
proof fn put_under_changes(
    entities: Entities,
    child: EntityId,
    parent: EntityId,
    inside: Option<Transform>,
)
    requires
        sound(entities, MAX_ENTITIES as nat),
    ensures
        ({
            let after = put_under(entities, child, parent, inside);
            &&& forall|id: EntityId|
                lives(entities, id) && id != child ==> #[trigger] thing_at(after, id) == thing_at(
                    entities,
                    id,
                )
            &&& lives(entities, child) ==> same_but_place(
                thing_at(entities, child),
                thing_at(after, child),
            )
            &&& may_hang(entities, child, parent) ==> thing_at(after, child).facts.parent == parent
                && thing_at(after, child).facts.transform == match inside {
                Some(place) => place,
                None => thing_at(entities, child).facts.transform,
            }
            &&& !may_hang(entities, child, parent) ==> after == entities
        }),
{
    let after = put_under(entities, child, parent, inside);
    assert forall|id: EntityId| lives(entities, id) && id != child implies #[trigger] thing_at(
        after,
        id,
    ) == thing_at(entities, id) by {
        if lives(entities, child) {
            assert(id.slot != child.slot);
        }
    }
}

/// While entities are gathered under a group nothing of them changes but what
/// they hang off and where they stand.
proof fn gathering_changes(
    was: Entities,
    entities: Entities,
    picks: Seq<Pick>,
    group: EntityId,
    insides: Seq<(EntityId, Transform)>,
    count: nat,
)
    requires
        count <= picks.len(),
        sound(entities, MAX_ENTITIES as nat),
        group.some(),
        lives(entities, group),
        !lives(was, group),
        parent_of(entities, group) == Handle::nothing(),
        forall|id: EntityId| lives(was, id) ==> #[trigger] lives(entities, id),
    ensures
        ({
            let after = gathered_under(was, entities, picks, group, insides, count);
            &&& thing_at(after, group) == thing_at(entities, group)
            &&& forall|id: EntityId|
                lives(entities, id) ==> same_but_place(
                    thing_at(entities, id),
                    #[trigger] thing_at(after, id),
                )
            &&& forall|id: EntityId|
                lives(entities, id) && !(exists|i: int|
                    0 <= i < count && #[trigger] picks[i] == Pick::Entity(id) && topmost(
                        was,
                        picks,
                        i,
                    )) ==> #[trigger] thing_at(after, id) == thing_at(entities, id)
            &&& forall|i: int|
                0 <= i < count && topmost(was, picks, i) ==> placed_by(
                    insides,
                    (#[trigger] picks[i])->Entity_0,
                    thing_at(entities, picks[i]->Entity_0).facts.transform,
                    thing_at(after, picks[i]->Entity_0).facts.transform,
                )
        }),
    decreases count,
{
    if count > 0 {
        let less = (count - 1) as nat;
        gathering_keeps(was, entities, picks, group, insides, less);
        gathering_changes(was, entities, picks, group, insides, less);
        let so_far = gathered_under(was, entities, picks, group, insides, less);
        let after = gathered_under(was, entities, picks, group, insides, count);
        if topmost(was, picks, less as int) {
            let id = picks[less as int]->Entity_0;
            assert(lives(entities, id));
            assert(lives(so_far, id) && lives(so_far, group));
            assert(!hangs(so_far, group, id)) by {
                assert(!Handle::nothing().some());
            }
            assert(may_hang(so_far, id, group));
            let held = thing_at(entities, id).facts.transform;
            let mid = thing_at(so_far, id).facts.transform;
            put_under_changes(so_far, id, group, place_for(insides, id));
            placed_for(insides, id, held);
            if place_for(insides, id) is None {
                nowhere_said(insides, id);
                assert(mid == held) by {
                    if exists|i: int|
                        0 <= i < less && #[trigger] picks[i] == Pick::Entity(id) && topmost(
                            was,
                            picks,
                            i,
                        ) {
                        let i = choose|i: int|
                            0 <= i < less && #[trigger] picks[i] == Pick::Entity(id) && topmost(
                                was,
                                picks,
                                i,
                            );
                        assert(placed_by(insides, picks[i]->Entity_0, held, mid));
                    } else {
                        assert(thing_at(so_far, id) == thing_at(entities, id));
                    }
                }
            }
            assert(placed_by(insides, id, held, thing_at(after, id).facts.transform));
            assert forall|other: EntityId| lives(entities, other) implies same_but_place(
                thing_at(entities, other),
                #[trigger] thing_at(after, other),
            ) by {
                assert(lives(so_far, other));
                assert(same_but_place(thing_at(entities, other), thing_at(so_far, other)));
                if other != id {
                    assert(thing_at(after, other) == thing_at(so_far, other));
                }
            }
            assert forall|other: EntityId|
                lives(entities, other) && !(exists|i: int|
                    0 <= i < count && #[trigger] picks[i] == Pick::Entity(other) && topmost(
                        was,
                        picks,
                        i,
                    )) implies #[trigger] thing_at(after, other) == thing_at(entities, other) by {
                assert(lives(so_far, other));
                if other == id {
                    assert(picks[less as int] == Pick::Entity(id));
                }
                assert(thing_at(so_far, other) == thing_at(entities, other));
            }
            assert forall|i: int| 0 <= i < count && topmost(was, picks, i) implies placed_by(
                insides,
                (#[trigger] picks[i])->Entity_0,
                thing_at(entities, picks[i]->Entity_0).facts.transform,
                thing_at(after, picks[i]->Entity_0).facts.transform,
            ) by {
                let other = picks[i]->Entity_0;
                if other != id {
                    assert(lives(entities, other));
                    assert(lives(so_far, other));
                    assert(thing_at(after, other) == thing_at(so_far, other));
                }
            }
        } else {
            assert(after == so_far);
            assert forall|other: EntityId|
                lives(entities, other) && !(exists|i: int|
                    0 <= i < count && #[trigger] picks[i] == Pick::Entity(other) && topmost(
                        was,
                        picks,
                        i,
                    )) implies #[trigger] thing_at(after, other) == thing_at(entities, other) by {
                assert(thing_at(so_far, other) == thing_at(entities, other));
            }
        }
    }
}

/// Making a group changes nothing but what was put in it, and of that nothing
/// but what it hangs off and where it stands: the place that is said of it, seen
/// from the group. The group is called a group, stands where it is said to and
/// draws nothing.
pub proof fn a_group_changes_places_only(
    entities: Entities,
    picks: Seq<Pick>,
    standing: Transform,
    insides: Seq<(EntityId, Transform)>,
)
    requires
        sound(entities, MAX_ENTITIES as nat),
        rooted(entities),
        parents_known(entities),
        next_handle(entities, MAX_ENTITIES as nat).some(),
    ensures
        ({
            let (after, made) = grouped_up(entities, picks, standing, insides);
            let group = next_handle(entities, MAX_ENTITIES as nat);
            let thing = thing_at(after, group);
            &&& made == seq![Pick::Entity(group)]
            &&& forall|id: EntityId| #[trigger]
                lives(after, id) == (lives(entities, id) || id == group)
            &&& thing.name == "group"@
            &&& thing.facts.transform == standing
            &&& thing.facts.group
            &&& thing.facts.mesh == 0
            &&& !thing.facts.hidden
            &&& !thing.facts.parent.some()
            &&& forall|id: EntityId|
                lives(entities, id) ==> same_but_place(
                    thing_at(entities, id),
                    #[trigger] thing_at(after, id),
                )
            &&& forall|id: EntityId|
                lives(entities, id) && !(exists|i: int|
                    0 <= i < picks.len() && #[trigger] picks[i] == Pick::Entity(id) && topmost(
                        entities,
                        picks,
                        i,
                    )) ==> #[trigger] thing_at(after, id) == thing_at(entities, id)
            &&& forall|i: int|
                0 <= i < picks.len() && topmost(entities, picks, i) ==> placed_by(
                    insides,
                    (#[trigger] picks[i])->Entity_0,
                    thing_at(entities, picks[i]->Entity_0).facts.transform,
                    thing_at(after, picks[i]->Entity_0).facts.transform,
                )
        }),
{
    let group = next_handle(entities, MAX_ENTITIES as nat);
    let thing = new_group(standing);
    let start = spawned(entities, MAX_ENTITIES as nat, thing);
    spawned_is_new(entities, MAX_ENTITIES as nat, thing, group);
    spawning_keeps_roots(entities, thing);
    assert forall|id: EntityId| #[trigger] lives(start, id) == (lives(entities, id) || id
        == group) by {
        spawned_is_new(entities, MAX_ENTITIES as nat, thing, id);
    }
    assert forall|id: EntityId| lives(entities, id) implies #[trigger] thing_at(start, id)
        == thing_at(entities, id) by {
        spawned_is_new(entities, MAX_ENTITIES as nat, thing, id);
    }
    assert(parent_of(start, group) == Handle::nothing()) by {
        if start.len() > 0 {
            assert(start[0].generation >= 1);
        }
    }
    gathering_keeps(entities, start, picks, group, insides, picks.len());
    gathering_changes(entities, start, picks, group, insides, picks.len());
    let after = gathered_under(entities, start, picks, group, insides, picks.len());
    assert forall|id: EntityId| lives(entities, id) implies same_but_place(
        thing_at(entities, id),
        #[trigger] thing_at(after, id),
    ) by {
        assert(lives(start, id));
        assert(thing_at(start, id) == thing_at(entities, id));
    }
    assert forall|id: EntityId|
        lives(entities, id) && !(exists|i: int|
            0 <= i < picks.len() && #[trigger] picks[i] == Pick::Entity(id) && topmost(
                entities,
                picks,
                i,
            )) implies #[trigger] thing_at(after, id) == thing_at(entities, id) by {
        assert(lives(start, id));
        assert(thing_at(start, id) == thing_at(entities, id));
    }
    assert forall|i: int| 0 <= i < picks.len() && topmost(entities, picks, i) implies placed_by(
        insides,
        (#[trigger] picks[i])->Entity_0,
        thing_at(entities, picks[i]->Entity_0).facts.transform,
        thing_at(after, picks[i]->Entity_0).facts.transform,
    ) by {
        let id = picks[i]->Entity_0;
        assert(thing_at(start, id) == thing_at(entities, id));
    }
}

/// An entity is topmost among those picked where it is alive and hangs off none
/// of them, at any distance.
pub proof fn topmost_hangs_off_none(entities: Entities, picks: Seq<Pick>, at: int)
    requires
        sound(entities, MAX_ENTITIES as nat),
        rooted(entities),
        0 <= at < picks.len(),
        picks[at] is Entity,
    ensures
        topmost(entities, picks, at) <==> lives(entities, picks[at]->Entity_0) && forall|other:
            EntityId| #[trigger]
            picks.contains(Pick::Entity(other)) ==> !crate::tree::below(
                entities,
                picks[at]->Entity_0,
                other,
            ),
{
    let id = picks[at]->Entity_0;
    if topmost(entities, picks, at) {
        assert forall|other: EntityId| #[trigger] picks.contains(
            Pick::Entity(other),
        ) implies !crate::tree::below(entities, id, other) by {
            let j = choose|j: int| 0 <= j < picks.len() && picks[j] == Pick::Entity(other);
            the_walk_finds_it(entities, id, other);
            assert(match picks[j] {
                Pick::Entity(other) => !hangs(entities, id, other),
                _ => true,
            });
        }
    }
    if lives(entities, id) && forall|other: EntityId| #[trigger]
        picks.contains(Pick::Entity(other)) ==> !crate::tree::below(entities, id, other) {
        assert forall|j: int| 0 <= j < picks.len() implies match #[trigger] picks[j] {
            Pick::Entity(other) => !hangs(entities, id, other),
            _ => true,
        } by {
            match picks[j] {
                Pick::Entity(other) => {
                    assert(picks.contains(Pick::Entity(other)));
                    the_walk_finds_it(entities, id, other);
                },
                _ => {},
            }
        }
    }
}

/// While what was in a group is let go nothing of it changes but what it hangs
/// off and where it stands.
proof fn letting_go_changes(
    entities: Entities,
    group: EntityId,
    insides: Seq<(EntityId, Transform)>,
    count: nat,
    depth: spec_fn(EntityId) -> nat,
)
    requires
        sound(entities, MAX_ENTITIES as nat),
        lives(entities, group),
        deepens(entities, depth),
        count <= children_of(entities, group).len(),
    ensures
        ({
            let children = children_of(entities, group);
            let parent = parent_of(entities, group);
            let after = let_go(entities, children, parent, insides, count);
            &&& forall|id: EntityId|
                lives(entities, id) ==> same_but_place(
                    thing_at(entities, id),
                    #[trigger] thing_at(after, id),
                )
            &&& forall|id: EntityId|
                lives(entities, id) && !(exists|i: int|
                    0 <= i < count && #[trigger] children[i] == id) ==> #[trigger] thing_at(
                    after,
                    id,
                ) == thing_at(entities, id)
            &&& forall|i: int|
                0 <= i < count ==> placed_by(
                    insides,
                    #[trigger] children[i],
                    thing_at(entities, children[i]).facts.transform,
                    thing_at(after, children[i]).facts.transform,
                )
        }),
    decreases count,
{
    if count > 0 {
        let less = (count - 1) as nat;
        let children = children_of(entities, group);
        let parent = parent_of(entities, group);
        letting_go_lands(entities, group, insides, less, depth);
        letting_go_lands(entities, group, insides, count, depth);
        letting_go_changes(entities, group, insides, less, depth);
        let so_far = let_go(entities, children, parent, insides, less);
        let after = let_go(entities, children, parent, insides, count);
        let child = children[less as int];
        let wanted = |child: EntityId| parent_of(entities, child) == group;
        filter_contains(living(entities), wanted);
        living_resolves(entities);
        assert(children.contains(child));
        children_are_distinct(entities, group);
        assert(forall|i: int| 0 <= i < less ==> #[trigger] children[i] != child) by {
            assert forall|i: int| 0 <= i < less implies #[trigger] children[i] != child by {
                assert(children[i].slot < children[less as int].slot);
            }
        }
        assert(thing_at(so_far, child) == thing_at(entities, child));
        assert(group.some()) by {
            assert(entities[group.slot as int].generation >= 1);
        }
        assert(lives(so_far, child));
        put_under_changes(so_far, child, parent, place_for(insides, child));
        assert(parent != group) by {
            if parent.some() {
                assert(depth(parent_of(entities, group)) < depth(group));
            }
        }
        assert(parent_of(after, child) == parent);
        assert(may_hang(so_far, child, parent)) by {
            if !may_hang(so_far, child, parent) {
                assert(after == so_far);
                let up = thing_at(entities, child).facts.parent;
                assert(up == group);
                assert(lives(so_far, group));
                assert(parent_of(so_far, child) == group);
            }
        }
        placed_for(insides, child, thing_at(entities, child).facts.transform);
        assert forall|id: EntityId| lives(entities, id) implies same_but_place(
            thing_at(entities, id),
            #[trigger] thing_at(after, id),
        ) by {
            assert(lives(so_far, id));
            assert(same_but_place(thing_at(entities, id), thing_at(so_far, id)));
            if id != child {
                assert(thing_at(after, id) == thing_at(so_far, id));
            }
        }
        assert forall|id: EntityId|
            lives(entities, id) && !(exists|i: int|
                0 <= i < count && #[trigger] children[i] == id) implies #[trigger] thing_at(
            after,
            id,
        ) == thing_at(entities, id) by {
            assert(lives(so_far, id));
            assert(children[less as int] == child);
            assert(thing_at(so_far, id) == thing_at(entities, id));
        }
        assert forall|i: int| 0 <= i < count implies placed_by(
            insides,
            #[trigger] children[i],
            thing_at(entities, children[i]).facts.transform,
            thing_at(after, children[i]).facts.transform,
        ) by {
            if i < less {
                assert(children.contains(children[i]));
                assert(lives(so_far, children[i]));
                assert(thing_at(after, children[i]) == thing_at(so_far, children[i]));
            }
        }
    }
}

/// What hangs right off an entity is listed once, in the order of the slots.
pub proof fn children_are_distinct(entities: Entities, id: EntityId)
    requires
        entities.len() <= u32::MAX,
    ensures
        forall|i: int, j: int|
            0 <= i < j < children_of(entities, id).len() ==> (#[trigger] children_of(
                entities,
                id,
            )[i]).slot < (#[trigger] children_of(entities, id)[j]).slot,
{
    living_resolves(entities);
    filtered_in_order(living(entities), |child: EntityId| parent_of(entities, child) == id);
}

/// What is kept of several handles is kept in their order.
pub proof fn filtered_in_order(ids: Seq<Handle>, wanted: spec_fn(Handle) -> bool)
    requires
        forall|i: int, j: int|
            0 <= i < j < ids.len() ==> (#[trigger] ids[i]).slot < (#[trigger] ids[j]).slot,
    ensures
        forall|i: int, j: int|
            0 <= i < j < ids.filter(wanted).len() ==> (#[trigger] ids.filter(wanted)[i]).slot < (
            #[trigger] ids.filter(wanted)[j]).slot,
    decreases ids.len(),
{
    reveal(Seq::filter);
    if ids.len() > 0 {
        let less = ids.drop_last();
        let kept = less.filter(wanted);
        let all = ids.filter(wanted);
        assert forall|i: int, j: int| 0 <= i < j < less.len() implies (#[trigger] less[i]).slot < (
        #[trigger] less[j]).slot by {
            assert(less[i] == ids[i] && less[j] == ids[j]);
        }
        filtered_in_order(less, wanted);
        filter_contains(less, wanted);
        assert forall|i: int, j: int| 0 <= i < j < all.len() implies (#[trigger] all[i]).slot < (
        #[trigger] all[j]).slot by {
            assert(all[i] == kept[i]);
            if j < kept.len() {
                assert(all[j] == kept[j]);
            } else {
                assert(kept.contains(kept[i]));
                let k = choose|k: int| 0 <= k < less.len() && less[k] == kept[i];
                assert(ids[k] == kept[i]);
                assert(ids[ids.len() - 1] == all[j]);
            }
        }
    }
}

/// Taking a group apart changes nothing but what was in it, and of that nothing
/// but what it hangs off and where it stands: the place that is said of it.
pub proof fn taking_apart_changes_places_only(
    entities: Entities,
    group: EntityId,
    insides: Seq<(EntityId, Transform)>,
    id: EntityId,
)
    requires
        sound(entities, MAX_ENTITIES as nat),
        rooted(entities),
        lives(entities, group),
        id != group,
    ensures
        ({
            let after = taken_apart(entities, group, insides);
            &&& lives(after, id) == lives(entities, id)
            &&& !lives(after, group)
            &&& lives(entities, id) ==> same_but_place(thing_at(entities, id), thing_at(after, id))
            &&& lives(entities, id) && parent_of(entities, id) != group ==> thing_at(after, id)
                == thing_at(entities, id)
            &&& lives(entities, id) && parent_of(entities, id) == group ==> placed_by(
                insides,
                id,
                thing_at(entities, id).facts.transform,
                thing_at(after, id).facts.transform,
            )
        }),
{
    let children = children_of(entities, group);
    let parent = parent_of(entities, group);
    let depth = choose|depth: spec_fn(EntityId) -> nat| deepens(entities, depth);
    letting_go_lands(entities, group, insides, children.len(), depth);
    letting_go_changes(entities, group, insides, children.len(), depth);
    let freed = let_go(entities, children, parent, insides, children.len());
    despawned_is_gone(freed, MAX_ENTITIES as nat, group, id);
    despawned_is_gone(freed, MAX_ENTITIES as nat, group, group);
    let wanted = |child: EntityId| parent_of(entities, child) == group;
    filter_contains(living(entities), wanted);
    living_resolves(entities);
    assert(lives(freed, id) == lives(entities, id));
    if lives(entities, id) {
        assert(same_but_place(thing_at(entities, id), thing_at(freed, id)));
        if parent_of(entities, id) == group {
            assert(children.contains(id));
            let i = choose|i: int| 0 <= i < children.len() && children[i] == id;
            assert(children[i] == id);
        } else {
            assert forall|i: int| 0 <= i < children.len() implies #[trigger] children[i] != id by {
                assert(children.contains(children[i]));
            }
            assert(thing_at(freed, id) == thing_at(entities, id));
        }
    }
}

} // verus!
