//! Putting things in order, so that two of which neither comes first keep
//! the order they had.

use vstd::prelude::*;

verus! {

/// Things in order with one more among them: before those that come after
/// it, and behind every other.
pub open spec fn placed<A>(sorted: Seq<A>, item: A, less: spec_fn(A, A) -> bool) -> Seq<A>
    decreases sorted.len(),
{
    if sorted.len() == 0 || !less(item, sorted.last()) {
        sorted.push(item)
    } else {
        placed(sorted.drop_last(), item, less).push(sorted.last())
    }
}

/// Things put in order, one after the other.
pub open spec fn ranked<A>(items: Seq<A>, less: spec_fn(A, A) -> bool) -> Seq<A>
    decreases items.len(),
{
    if items.len() == 0 {
        Seq::empty()
    } else {
        placed(ranked(items.drop_last(), less), items.last(), less)
    }
}

/// Whether nothing comes before what stands in front of it.
pub open spec fn in_order<A>(items: Seq<A>, less: spec_fn(A, A) -> bool) -> bool {
    forall|i: int, j: int| 0 <= i < j < items.len() ==> !less(#[trigger] items[j], #[trigger] items[i])
}

/// Whether a comparison can put things in order: never both ways round, and
/// what is not sooner than the middle is not sooner than what is not after
/// the middle.
pub open spec fn orders<A>(less: spec_fn(A, A) -> bool) -> bool {
    &&& forall|a: A, b: A| #[trigger] less(a, b) ==> !less(b, a)
    &&& forall|a: A, b: A, c: A|
        !(#[trigger] less(b, a)) && !(#[trigger] less(c, b)) ==> !less(c, a)
}

/// Putting one more thing among others loses none and adds none.
proof fn placed_keeps<A>(sorted: Seq<A>, item: A, less: spec_fn(A, A) -> bool)
    ensures
        placed(sorted, item, less).to_multiset() == sorted.to_multiset().insert(item),
        placed(sorted, item, less).len() == sorted.len() + 1,
    decreases sorted.len(),
{
    broadcast use vstd::seq_lib::group_to_multiset_ensures;

    if sorted.len() == 0 || !less(item, sorted.last()) {
    } else {
        placed_keeps(sorted.drop_last(), item, less);
        assert(sorted =~= sorted.drop_last().push(sorted.last()));
        assert(placed(sorted, item, less).to_multiset() =~= sorted.to_multiset().insert(item));
    }
}

/// Putting things in order loses none and adds none.
pub proof fn ranked_keeps<A>(items: Seq<A>, less: spec_fn(A, A) -> bool)
    ensures
        ranked(items, less).to_multiset() == items.to_multiset(),
        ranked(items, less).len() == items.len(),
    decreases items.len(),
{
    broadcast use vstd::seq_lib::group_to_multiset_ensures;

    if items.len() == 0 {
        assert(items =~= Seq::empty());
    } else {
        ranked_keeps(items.drop_last(), less);
        placed_keeps(ranked(items.drop_last(), less), items.last(), less);
        assert(items =~= items.drop_last().push(items.last()));
    }
}

/// What stands in a sequence with one thing put among others is that thing
/// or one of the others.
proof fn placed_holds<A>(sorted: Seq<A>, item: A, less: spec_fn(A, A) -> bool, i: int)
    requires
        0 <= i < placed(sorted, item, less).len(),
    ensures
        placed(sorted, item, less)[i] == item || sorted.contains(placed(sorted, item, less)[i]),
    decreases sorted.len(),
{
    if sorted.len() == 0 || !less(item, sorted.last()) {
        if i < sorted.len() {
            assert(sorted[i] == sorted.push(item)[i]);
        }
    } else {
        let less_of = sorted.drop_last();
        placed_keeps(less_of, item, less);
        if i < less_of.len() + 1 {
            placed_holds(less_of, item, less, i);
            let held = placed(less_of, item, less)[i];
            if less_of.contains(held) {
                let k = choose|k: int| 0 <= k < less_of.len() && less_of[k] == held;
                assert(sorted[k] == held);
            }
        } else {
            assert(sorted[sorted.len() - 1] == sorted.last());
        }
    }
}

/// Things in order stay in order with one more among them.
proof fn placed_in_order<A>(sorted: Seq<A>, item: A, less: spec_fn(A, A) -> bool)
    requires
        orders(less),
        in_order(sorted, less),
    ensures
        in_order(placed(sorted, item, less), less),
    decreases sorted.len(),
{
    let all = placed(sorted, item, less);
    if sorted.len() == 0 || !less(item, sorted.last()) {
        assert forall|i: int, j: int| 0 <= i < j < all.len() implies !less(
            #[trigger] all[j],
            #[trigger] all[i],
        ) by {
            if j == sorted.len() {
                let last = sorted.len() - 1;
                assert(!less(item, sorted[last]));
                if i < last {
                    assert(!less(sorted[last], sorted[i]));
                    assert(!less(item, sorted[i]));
                }
            } else {
                assert(!less(sorted[j], sorted[i]));
            }
        }
    } else {
        let fewer = sorted.drop_last();
        let last = sorted.last();
        assert forall|i: int, j: int| 0 <= i < j < fewer.len() implies !less(
            #[trigger] fewer[j],
            #[trigger] fewer[i],
        ) by {
            assert(!less(sorted[j], sorted[i]));
        }
        placed_in_order(fewer, item, less);
        placed_keeps(fewer, item, less);
        let head = placed(fewer, item, less);
        assert forall|i: int, j: int| 0 <= i < j < all.len() implies !less(
            #[trigger] all[j],
            #[trigger] all[i],
        ) by {
            if j == head.len() {
                placed_holds(fewer, item, less, i);
                if head[i] != item {
                    let k = choose|k: int| 0 <= k < fewer.len() && fewer[k] == head[i];
                    assert(!less(sorted[sorted.len() - 1], sorted[k]));
                }
            } else {
                assert(!less(head[j], head[i]));
            }
        }
    }
}

/// Things put in order are in order.
pub proof fn ranked_in_order<A>(items: Seq<A>, less: spec_fn(A, A) -> bool)
    requires
        orders(less),
    ensures
        in_order(ranked(items, less), less),
    decreases items.len(),
{
    if items.len() > 0 {
        ranked_in_order(items.drop_last(), less);
        placed_in_order(ranked(items.drop_last(), less), items.last(), less);
    }
}

/// Putting one thing among others, and looking only at what a view shows,
/// can be done in either order.
proof fn placed_views<A, B>(
    sorted: Seq<A>,
    item: A,
    less: spec_fn(A, A) -> bool,
    view: spec_fn(A) -> B,
    by_view: spec_fn(B, B) -> bool,
)
    requires
        forall|a: A, b: A| #[trigger] less(a, b) == by_view(view(a), view(b)),
    ensures
        placed(sorted, item, less).map_values(view) == placed(
            sorted.map_values(view),
            view(item),
            by_view,
        ),
    decreases sorted.len(),
{
    let shown = sorted.map_values(view);
    if sorted.len() == 0 || !less(item, sorted.last()) {
        if sorted.len() > 0 {
            assert(less(item, sorted.last()) == by_view(view(item), view(sorted.last())));
            assert(shown.last() == view(sorted.last()));
        }
        assert(sorted.push(item).map_values(view) =~= shown.push(view(item)));
    } else {
        assert(less(item, sorted.last()) == by_view(view(item), view(sorted.last())));
        assert(shown.last() == view(sorted.last()));
        placed_views(sorted.drop_last(), item, less, view, by_view);
        assert(sorted.drop_last().map_values(view) =~= shown.drop_last());
        assert(placed(sorted, item, less).map_values(view) =~= placed(
            sorted.drop_last(),
            item,
            less,
        ).map_values(view).push(view(sorted.last())));
    }
}

/// Putting things in order, and looking only at what a view shows, can be
/// done in either order.
pub proof fn ranked_views<A, B>(
    items: Seq<A>,
    less: spec_fn(A, A) -> bool,
    view: spec_fn(A) -> B,
    by_view: spec_fn(B, B) -> bool,
)
    requires
        forall|a: A, b: A| #[trigger] less(a, b) == by_view(view(a), view(b)),
    ensures
        ranked(items, less).map_values(view) == ranked(items.map_values(view), by_view),
    decreases items.len(),
{
    if items.len() == 0 {
        assert(ranked(items, less).map_values(view) =~= Seq::empty());
        assert(items.map_values(view) =~= Seq::empty());
    } else {
        ranked_views(items.drop_last(), less, view, by_view);
        assert(items.map_values(view).drop_last() =~= items.drop_last().map_values(view));
        placed_views(ranked(items.drop_last(), less), items.last(), less, view, by_view);
    }
}

/// What can be put in order, by what is asked.
pub trait Ordered<By: Copy>: Sized {
    /// Whether this comes before another.
    spec fn sooner_by(&self, other: &Self, by: By) -> bool;

    /// Whether this comes before another.
    fn before_by(&self, other: &Self, by: By) -> (result: bool)
        ensures
            result == self.sooner_by(other, by),
    ;
}

/// By name, for what is put in order one way only.
#[derive(Clone, Copy, Debug)]
pub struct ByName;

/// The comparison things are put in order with.
pub open spec fn comparison<By: Copy, A: Ordered<By>>(by: By) -> spec_fn(A, A) -> bool {
    |a: A, b: A| a.sooner_by(&b, by)
}

/// Puts one more thing among others that are in order.
fn place<By: Copy, A: Ordered<By>>(sorted: &mut Vec<A>, item: A, by: By)
    ensures
        final(sorted)@ == placed(old(sorted)@, item, comparison::<By, A>(by)),
{
    let ghost less = comparison::<By, A>(by);
    let ghost all = sorted@;
    let mut at: usize = sorted.len();
    assert(all.take(at as int) =~= all);
    assert(all.skip(at as int) =~= Seq::empty());
    assert(placed(all, item, less) + Seq::<A>::empty() =~= placed(all, item, less));
    while at > 0 && item.before_by(&sorted[at - 1], by)
        invariant
            at <= all.len(),
            sorted@ == all,
            less == comparison::<By, A>(by),
            placed(all, item, less) == placed(all.take(at as int), item, less) + all.skip(at as int),
        decreases at,
    {
        proof {
            let head = all.take(at as int);
            assert(head.last() == all[at as int - 1]);
            assert(head.drop_last() =~= all.take(at as int - 1));
            assert(placed(head, item, less) + all.skip(at as int) =~= placed(
                head.drop_last(),
                item,
                less,
            ) + all.skip(at as int - 1));
        }
        at = at - 1;
    }
    proof {
        let head = all.take(at as int);
        if at > 0 {
            assert(head.last() == all[at as int - 1]);
        }
        assert(placed(head, item, less) == head.push(item));
        assert(all.insert(at as int, item) =~= head.push(item) + all.skip(at as int));
    }
    sorted.insert(at, item);
}

/// Puts things in order.
pub fn rank<By: Copy, A: Ordered<By>>(items: Vec<A>, by: By) -> (result: Vec<A>)
    ensures
        result@ == ranked(items@, comparison::<By, A>(by)),
{
    let ghost all = items@;
    let ghost less = comparison::<By, A>(by);
    let mut left: Vec<A> = items;
    let mut sorted: Vec<A> = Vec::new();
    assert(all.take(0) =~= Seq::empty());
    let ghost mut done: int = 0;
    assert(all.skip(0) =~= all);
    while left.len() > 0
        invariant
            0 <= done <= all.len(),
            left@ == all.skip(done),
            less == comparison::<By, A>(by),
            sorted@ == ranked(all.take(done), less),
        decreases left@.len(),
    {
        let item: A = left.remove(0);
        proof {
            assert(all.take(done + 1).drop_last() =~= all.take(done));
            assert(all.take(done + 1).last() == all[done]);
            assert(left@ =~= all.skip(done + 1));
        }
        place(&mut sorted, item, by);
        proof {
            done = done + 1;
        }
    }
    assert(all.take(done) =~= all);
    sorted
}

/// Things of which neither comes first keep the order they had: picked out of
/// what was put in order, they are what they were picked out of what was not.
pub proof fn even_things_keep_their_order<A>(items: Seq<A>, less: spec_fn(A, A) -> bool, one: A)
    requires
        orders(less),
    ensures
        ({
            let even = |other: A| !less(one, other) && !less(other, one);
            ranked(items, less).filter(even) == items.filter(even)
        }),
    decreases items.len(),
{
    reveal(Seq::filter);
    let even = |other: A| !less(one, other) && !less(other, one);
    if items.len() > 0 {
        let head = items.drop_last();
        even_things_keep_their_order(head, less, one);
        ranked_in_order(head, less);
        placed_behind_its_even(ranked(head, less), items.last(), less, one);
    }
}

/// One thing put among others in order stands behind those it is even with.
proof fn placed_behind_its_even<A>(
    sorted: Seq<A>,
    item: A,
    less: spec_fn(A, A) -> bool,
    one: A,
)
    requires
        orders(less),
        in_order(sorted, less),
    ensures
        ({
            let even = |other: A| !less(one, other) && !less(other, one);
            placed(sorted, item, less).filter(even) == if even(item) {
                sorted.filter(even).push(item)
            } else {
                sorted.filter(even)
            }
        }),
    decreases sorted.len(),
{
    reveal(Seq::filter);
    let even = |other: A| !less(one, other) && !less(other, one);
    if sorted.len() == 0 || !less(item, sorted.last()) {
        let more = sorted.push(item);
        assert(more.drop_last() =~= sorted);
    } else {
        let head = sorted.drop_last();
        assert forall|i: int, j: int| 0 <= i < j < head.len() implies !less(
            #[trigger] head[j],
            #[trigger] head[i],
        ) by {
            assert(!less(sorted[j], sorted[i]));
        }
        placed_behind_its_even(head, item, less, one);
        let more = placed(head, item, less).push(sorted.last());
        assert(more.drop_last() =~= placed(head, item, less));
        if even(item) && even(sorted.last()) {
            assert(!less(one, sorted.last()) && !less(item, one));
        }
    }
}

} // verus!
