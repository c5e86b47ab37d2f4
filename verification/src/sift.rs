//! A binary max-heap laid out in a vector of adapters: the element at `i` has
//! its parent at `(i - 1) / 2` and its children at `2 * i + 1` and `2 * i + 2`.
//!
//! Everything here that speaks of order holds where the stamps are totally
//! ordered; what is in the vector is kept track of whatever the order.

use crate::heap::is_front;
use crate::ordered::StampOrdered;
use crate::stamp::{
    is_total_order, lemma_stamp_le_reflexive, lemma_stamp_le_total, lemma_stamp_le_transitive,
    stamp_le, stamp_ref_le, Stamped,
};
use crate::vector::unwrapped;
use vstd::multiset::Multiset;
use vstd::prelude::*;
use vstd::seq_lib::{to_multiset_build, to_multiset_contains, to_multiset_len, to_multiset_update};

verus! {

/// The wrapped values of `items`, without their order.
pub(crate) open spec fn values<S: Stamped<ST>, ST: Ord>(
    items: Seq<StampOrdered<S, ST>>,
) -> Multiset<S> {
    unwrapped(items).to_multiset()
}

/// The stamp at `lower` is not after the stamp at `upper`.
pub(crate) open spec fn below<S: Stamped<ST>, ST: Ord>(
    items: Seq<StampOrdered<S, ST>>,
    lower: int,
    upper: int,
) -> bool {
    stamp_le(items[lower]@.stamp(), items[upper]@.stamp())
}

/// Every element but the root is below its parent.
pub(crate) open spec fn heap_ordered<S: Stamped<ST>, ST: Ord>(
    items: Seq<StampOrdered<S, ST>>,
) -> bool {
    forall|i: int, p: int|
        1 <= i < items.len() && p == (i - 1) / 2 ==> #[trigger] below(items, i, p)
}

/// The children of `pos` are below the parent of `pos`.
spec fn children_below_parent<S: Stamped<ST>, ST: Ord>(
    items: Seq<StampOrdered<S, ST>>,
    pos: int,
) -> bool {
    forall|c: int, g: int|
        1 <= c < items.len() && (c - 1) / 2 == pos && pos >= 1 && g == (pos - 1) / 2
            ==> #[trigger] below(items, c, g)
}

/// The heap order holds but perhaps between `pos` and its parent.
spec fn ordered_but_above<S: Stamped<ST>, ST: Ord>(
    items: Seq<StampOrdered<S, ST>>,
    pos: int,
) -> bool {
    &&& forall|i: int, p: int|
        1 <= i < items.len() && p == (i - 1) / 2 && i != pos ==> #[trigger] below(items, i, p)
    &&& children_below_parent(items, pos)
}

/// The heap order holds but perhaps between `pos` and its children.
spec fn ordered_but_under<S: Stamped<ST>, ST: Ord>(
    items: Seq<StampOrdered<S, ST>>,
    pos: int,
) -> bool {
    &&& forall|i: int, p: int|
        1 <= i < items.len() && p == (i - 1) / 2 && p != pos ==> #[trigger] below(items, i, p)
    &&& children_below_parent(items, pos)
}

/// `child` is a child of `pos` that no other child of `pos` is above.
spec fn is_greater_child<S: Stamped<ST>, ST: Ord>(
    items: Seq<StampOrdered<S, ST>>,
    pos: int,
    child: int,
) -> bool {
    &&& 1 <= child < items.len()
    &&& (child - 1) / 2 == pos
    &&& forall|c: int|
        1 <= c < items.len() && (c - 1) / 2 == pos ==> #[trigger] below(items, c, child)
}

/// `items` with the elements at `i` and `j` exchanged.
spec fn swapped<S: Stamped<ST>, ST: Ord>(
    items: Seq<StampOrdered<S, ST>>,
    i: int,
    j: int,
) -> Seq<StampOrdered<S, ST>> {
    items.update(i, items[j]).update(j, items[i])
}

/// An empty vector holds no value.
pub(crate) proof fn lemma_no_items_no_values<S: Stamped<ST>, ST: Ord>(
    items: Seq<StampOrdered<S, ST>>,
)
    requires
        items.len() == 0,
    ensures
        values(items) == Multiset::<S>::empty(),
{
    assert forall|any: S| values(items).count(any) == 0 by {
        to_multiset_contains(unwrapped(items), any);
    }
    assert(values(items) =~= Multiset::<S>::empty());
}

/// There are as many values as elements.
pub(crate) proof fn lemma_values_len<S: Stamped<ST>, ST: Ord>(items: Seq<StampOrdered<S, ST>>)
    ensures
        values(items).len() == items.len(),
{
    to_multiset_len(unwrapped(items));
}

/// An exchange of two elements leaves the values as they are.
proof fn lemma_swap_keeps_values<S: Stamped<ST>, ST: Ord>(
    items: Seq<StampOrdered<S, ST>>,
    i: int,
    j: int,
)
    requires
        0 <= i < items.len(),
        0 <= j < items.len(),
    ensures
        values(swapped(items, i, j)) == values(items),
{
    let plain = unwrapped(items);
    let half = plain.update(i, plain[j]);
    assert(unwrapped(swapped(items, i, j)) =~= half.update(j, plain[i]));
    to_multiset_update(plain, i, plain[j]);
    to_multiset_update(half, j, plain[i]);
    to_multiset_contains(plain, plain[i]);
    to_multiset_contains(plain, plain[j]);
    assert(plain.contains(plain[i]));
    assert(plain.contains(plain[j]));
    assert(half.update(j, plain[i]).to_multiset() =~= plain.to_multiset());
}

/// An element more at the end is one value more.
proof fn lemma_push_adds_value<S: Stamped<ST>, ST: Ord>(
    items: Seq<StampOrdered<S, ST>>,
    added: StampOrdered<S, ST>,
)
    ensures
        values(items.push(added)) == values(items).insert(added@),
{
    assert(unwrapped(items.push(added)) =~= unwrapped(items).push(added@));
    to_multiset_build(unwrapped(items), added@);
}

/// In a heap every element is below the root.
proof fn lemma_all_below_root<S: Stamped<ST>, ST: Ord>(items: Seq<StampOrdered<S, ST>>, i: int)
    requires
        is_total_order::<ST>(),
        heap_ordered(items),
        0 <= i < items.len(),
    ensures
        below(items, i, 0),
    decreases i,
{
    if i == 0 {
        lemma_stamp_le_reflexive(items[0]@.stamp());
    } else {
        let p = (i - 1) / 2;
        assert(below(items, i, p));
        lemma_all_below_root(items, p);
        lemma_stamp_le_transitive(items[i]@.stamp(), items[p]@.stamp(), items[0]@.stamp());
    }
}

/// The root of a heap is a front of its values.
pub(crate) proof fn lemma_root_is_front<S: Stamped<ST>, ST: Ord>(
    items: Seq<StampOrdered<S, ST>>,
)
    requires
        is_total_order::<ST>() ==> heap_ordered(items),
        items.len() > 0,
    ensures
        is_front::<S, ST>(values(items), Some(items[0]@)),
{
    let plain = unwrapped(items);
    assert(plain[0] == items[0]@);
    to_multiset_contains(plain, items[0]@);
    if is_total_order::<ST>() {
        assert forall|other: S| #[trigger] values(items).count(other) > 0 implies stamp_le(
            other.stamp(),
            items[0]@.stamp(),
        ) by {
            to_multiset_contains(plain, other);
            let k = choose|k: int| 0 <= k < plain.len() && plain[k] == other;
            lemma_all_below_root(items, k);
        }
    }
}

/// One exchange on the way up keeps the order everywhere but above the parent.
proof fn lemma_rise_step<S: Stamped<ST>, ST: Ord>(before: Seq<StampOrdered<S, ST>>, pos: int)
    requires
        is_total_order::<ST>(),
        1 <= pos < before.len(),
        ordered_but_above(before, pos),
        !below(before, pos, (pos - 1) / 2),
    ensures
        ordered_but_above(swapped(before, (pos - 1) / 2, pos), (pos - 1) / 2),
{
    let parent = (pos - 1) / 2;
    let after = swapped(before, parent, pos);
    let rising = before[pos]@.stamp();
    let sinking = before[parent]@.stamp();
    lemma_stamp_le_total(rising, sinking);
    assert forall|i: int, p: int|
        1 <= i < after.len() && p == (i - 1) / 2 && i != parent implies #[trigger] below(
        after,
        i,
        p,
    ) by {
        if i == pos {
        } else if p == pos {
            assert(below(before, i, parent));
        } else if p == parent {
            assert(below(before, i, p));
            lemma_stamp_le_transitive(before[i]@.stamp(), sinking, rising);
        } else {
            assert(below(before, i, p));
        }
    }
    assert forall|c: int, g: int|
        1 <= c < after.len() && (c - 1) / 2 == parent && parent >= 1 && g == (parent - 1)
            / 2 implies #[trigger] below(after, c, g) by {
        assert(below(before, parent, g));
        if c != pos {
            assert(below(before, c, parent));
            lemma_stamp_le_transitive(before[c]@.stamp(), sinking, before[g]@.stamp());
        }
    }
}

/// Where the greater child is below `pos`, the whole heap is in order.
proof fn lemma_sink_done<S: Stamped<ST>, ST: Ord>(
    items: Seq<StampOrdered<S, ST>>,
    pos: int,
    child: int,
)
    requires
        is_total_order::<ST>(),
        0 <= pos < items.len(),
        ordered_but_under(items, pos),
        is_greater_child(items, pos, child),
        below(items, child, pos),
    ensures
        heap_ordered(items),
{
    assert forall|i: int, p: int|
        1 <= i < items.len() && p == (i - 1) / 2 implies #[trigger] below(items, i, p) by {
        if p == pos {
            assert(below(items, i, child));
            lemma_stamp_le_transitive(
                items[i]@.stamp(),
                items[child]@.stamp(),
                items[pos]@.stamp(),
            );
        } else {
            assert(below(items, i, p));
        }
    }
}

/// One exchange on the way down keeps the order everywhere but under the child.
proof fn lemma_sink_step<S: Stamped<ST>, ST: Ord>(
    before: Seq<StampOrdered<S, ST>>,
    pos: int,
    child: int,
)
    requires
        is_total_order::<ST>(),
        0 <= pos < before.len(),
        ordered_but_under(before, pos),
        is_greater_child(before, pos, child),
        !below(before, child, pos),
    ensures
        ordered_but_under(swapped(before, pos, child), child),
{
    let after = swapped(before, pos, child);
    let rising = before[child]@.stamp();
    let sinking = before[pos]@.stamp();
    lemma_stamp_le_total(rising, sinking);
    assert forall|i: int, p: int|
        1 <= i < after.len() && p == (i - 1) / 2 && p != child implies #[trigger] below(
        after,
        i,
        p,
    ) by {
        if i == child {
        } else if p == pos {
            assert(below(before, i, child));
        } else if i == pos {
            assert(below(before, child, p));
        } else {
            assert(below(before, i, p));
        }
    }
    assert forall|c: int, g: int|
        1 <= c < after.len() && (c - 1) / 2 == child && child >= 1 && g == (child - 1)
            / 2 implies #[trigger] below(after, c, g) by {
        assert(below(before, c, child));
    }
}

/// Exchanges the elements at `i` and `j`.
fn swap_items<S: Stamped<ST>, ST: Ord>(items: &mut Vec<StampOrdered<S, ST>>, i: usize, j: usize)
    requires
        i < j < old(items).len(),
    ensures
        final(items)@ == swapped(old(items)@, i as int, j as int),
{
    let (front, back) = items.as_mut_slice().split_at_mut(j);
    std::mem::swap(&mut front[i], &mut back[0]);
}

/// Moves the element at `start` towards the root until it is below its parent.
fn sift_up<S: Stamped<ST>, ST: Ord>(items: &mut Vec<StampOrdered<S, ST>>, start: usize)
    requires
        start < old(items).len(),
        is_total_order::<ST>() ==> ordered_but_above(old(items)@, start as int),
    ensures
        values(final(items)@) == values(old(items)@),
        final(items)@.len() == old(items)@.len(),
        is_total_order::<ST>() ==> heap_ordered(final(items)@),
{
    let mut pos = start;
    while pos > 0
        invariant
            pos < items@.len(),
            items@.len() == old(items)@.len(),
            values(items@) == values(old(items)@),
            is_total_order::<ST>() ==> ordered_but_above(items@, pos as int),
        ensures
            items@.len() == old(items)@.len(),
            values(items@) == values(old(items)@),
            is_total_order::<ST>() ==> heap_ordered(items@),
        decreases pos,
    {
        let parent = (pos - 1) / 2;
        if stamp_ref_le(&items[pos], &items[parent]) {
            break;
        }
        let ghost before = items@;
        swap_items(items, parent, pos);
        proof {
            lemma_swap_keeps_values(before, parent as int, pos as int);
            if is_total_order::<ST>() {
                lemma_rise_step(before, pos as int);
            }
        }
        pos = parent;
    }
}

/// Moves the element at `start` away from the root until its children are
/// below it.
fn sift_down<S: Stamped<ST>, ST: Ord>(items: &mut Vec<StampOrdered<S, ST>>, start: usize)
    requires
        start < old(items).len(),
        is_total_order::<ST>() ==> ordered_but_under(old(items)@, start as int),
    ensures
        values(final(items)@) == values(old(items)@),
        final(items)@.len() == old(items)@.len(),
        is_total_order::<ST>() ==> heap_ordered(final(items)@),
{
    let len = items.len();
    let mut pos = start;
    while pos < len / 2
        invariant
            pos < len,
            len == items@.len(),
            items@.len() == old(items)@.len(),
            values(items@) == values(old(items)@),
            is_total_order::<ST>() ==> ordered_but_under(items@, pos as int),
        ensures
            items@.len() == old(items)@.len(),
            values(items@) == values(old(items)@),
            is_total_order::<ST>() ==> heap_ordered(items@),
        decreases len - pos,
    {
        let left = 2 * pos + 1;
        let right = left + 1;
        let child = if right < len && !stamp_ref_le(&items[right], &items[left]) {
            right
        } else {
            left
        };
        if stamp_ref_le(&items[child], &items[pos]) {
            proof {
                if is_total_order::<ST>() {
                    lemma_sink_done(items@, pos as int, child as int);
                }
            }
            break;
        }
        let ghost before = items@;
        swap_items(items, pos, child);
        proof {
            lemma_swap_keeps_values(before, pos as int, child as int);
            if is_total_order::<ST>() {
                lemma_sink_step(before, pos as int, child as int);
            }
        }
        pos = child;
    }
}

/// Puts `item` into the heap.
pub(crate) fn push_item<S: Stamped<ST>, ST: Ord>(
    items: &mut Vec<StampOrdered<S, ST>>,
    item: StampOrdered<S, ST>,
)
    requires
        is_total_order::<ST>() ==> heap_ordered(old(items)@),
    ensures
        values(final(items)@) == values(old(items)@).insert(item@),
        is_total_order::<ST>() ==> heap_ordered(final(items)@),
{
    let last = items.len();
    items.push(item);
    proof {
        lemma_push_adds_value(old(items)@, item);
        if is_total_order::<ST>() {
            assert forall|i: int, p: int|
                1 <= i < items@.len() && p == (i - 1) / 2 && i != last implies #[trigger] below(
                items@,
                i,
                p,
            ) by {
                assert(below(old(items)@, i, p));
            }
        }
    }
    sift_up(items, last);
}

/// Takes the root out of the heap, if there is one.
pub(crate) fn pop_root<S: Stamped<ST>, ST: Ord>(items: &mut Vec<StampOrdered<S, ST>>) -> (root:
    Option<StampOrdered<S, ST>>)
    requires
        is_total_order::<ST>() ==> heap_ordered(old(items)@),
    ensures
        old(items)@.len() == 0 ==> root is None && final(items)@ == old(items)@,
        old(items)@.len() > 0 ==> root == Some(old(items)@[0]) && values(final(items)@) == values(
            old(items)@,
        ).remove(old(items)@[0]@),
        is_total_order::<ST>() ==> heap_ordered(final(items)@),
{
    let len = items.len();
    if len == 0 {
        return None;
    }
    if len > 1 {
        swap_items(items, 0, len - 1);
        proof {
            lemma_swap_keeps_values(old(items)@, 0, len - 1);
        }
    }
    let ghost turned = items@;
    let root = items.pop().unwrap();
    proof {
        assert(turned == items@.push(root));
        lemma_push_adds_value(items@, root);
        assert(values(items@) =~= values(old(items)@).remove(root@));
    }
    if items.len() > 1 {
        proof {
            if is_total_order::<ST>() {
                assert forall|i: int, p: int|
                    1 <= i < items@.len() && p == (i - 1) / 2 && p != 0 implies #[trigger] below(
                    items@,
                    i,
                    p,
                ) by {
                    assert(below(old(items)@, i, p));
                }
            }
        }
        sift_down(items, 0);
    }
    Some(root)
}

} // verus!
