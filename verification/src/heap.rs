//! A priority queue of stamped values that hands out the greatest stamp first.

use crate::ordered::StampOrdered;
use crate::sift::{
    heap_ordered, lemma_no_items_no_values, lemma_root_is_front, lemma_values_len, pop_root,
    push_item, values,
};
use crate::stamp::{is_total_order, stamp_le, Stamped};
use vstd::multiset::Multiset;
use vstd::prelude::*;

verus! {

/// `top` is one of `queued`, and no value of `queued` has a stamp after its
/// stamp.
pub open spec fn is_greatest<S: Stamped<ST>, ST: Ord>(queued: Multiset<S>, top: S) -> bool {
    &&& queued.count(top) > 0
    &&& forall|other: S| #[trigger]
        queued.count(other) > 0 ==> stamp_le(other.stamp(), top.stamp())
}

/// What the front of a queue with the values `queued` may be: nothing when the
/// queue is empty, else one of its values, a greatest one where the stamps are
/// totally ordered.
///
/// Which of several values with equal greatest stamps is at the front is left
/// open on purpose: it may change with the order of the pushes.
pub open spec fn is_front<S: Stamped<ST>, ST: Ord>(queued: Multiset<S>, front: Option<S>) -> bool {
    match front {
        None => queued.len() == 0,
        Some(top) => {
            &&& queued.count(top) > 0
            &&& is_total_order::<ST>() ==> is_greatest::<S, ST>(queued, top)
        },
    }
}

/// One removal at the front: `popped` is a front of `before`, and `after` is
/// `before` without it.
pub open spec fn pop_step<S: Stamped<ST>, ST: Ord>(
    before: Multiset<S>,
    popped: Option<S>,
    after: Multiset<S>,
) -> bool {
    &&& is_front::<S, ST>(before, popped)
    &&& after == match popped {
        Some(top) => before.remove(top),
        None => before,
    }
}

/// A run of removals at the front, each from what the one before left:
/// `states[k]` is the queue before removal `k` and `states[k + 1]` after it.
pub open spec fn pop_run<S: Stamped<ST>, ST: Ord>(
    states: Seq<Multiset<S>>,
    popped: Seq<Option<S>>,
) -> bool {
    &&& states.len() == popped.len() + 1
    &&& forall|k: int|
        0 <= k < popped.len() ==> pop_step::<S, ST>(states[k], #[trigger] popped[k], states[k + 1])
}

/// A priority queue that takes and gives bare stamped values.
///
/// The view is the multiset of the values in the queue. Where several values
/// share the greatest stamp, which of them is at the front is not fixed: see
/// [`is_front`]. A queue hands out the least stamp first where the stamp type
/// has the reversed order.
pub trait StampedHeap<S: Stamped<ST>, ST: Ord>: View<V = Multiset<S>> {
    /// The value at the front of the queue, which `peek_stamped` shows and
    /// `pop_stamped` removes.
    spec fn peeked(&self) -> Option<S>;

    /// Puts `stamped` into the queue.
    fn push_stamped(&mut self, stamped: S)
        ensures
            final(self)@ == old(self)@.insert(stamped),
    ;

    /// Removes the value at the front of the queue and hands it out; `None`
    /// where the queue is empty, which then stays as it is.
    fn pop_stamped(&mut self) -> (popped: Option<S>)
        ensures
            popped == old(self).peeked(),
            pop_step::<S, ST>(old(self)@, popped, final(self)@),
    ;

    /// The value at the front of the queue; `None` where the queue is empty.
    /// The queue stays as it is, and the answer depends on nothing but the
    /// queue.
    fn peek_stamped(&self) -> (top: Option<&S>)
        ensures
            self.peeked() == match top {
                Some(shown) => Some(*shown),
                None => None,
            },
            is_front::<S, ST>(self@, self.peeked()),
    ;
}

/// Two looks at one queue show the same: whatever `peek_stamped` answers on a
/// queue, it answers again as long as the queue is not changed.
pub proof fn lemma_peek_repeats<H: StampedHeap<S, ST>, S: Stamped<ST>, ST: Ord>(
    heap: H,
    first: Option<&S>,
    second: Option<&S>,
)
    requires
        heap.peeked() == match first {
            Some(shown) => Some(*shown),
            None => None,
        },
        heap.peeked() == match second {
            Some(shown) => Some(*shown),
            None => None,
        },
    ensures
        first == second,
{
}

/// Removals only take away: a later queue of a run holds no value more often
/// than an earlier one.
pub proof fn lemma_pops_only_shrink<S: Stamped<ST>, ST: Ord>(
    states: Seq<Multiset<S>>,
    popped: Seq<Option<S>>,
    i: int,
    j: int,
)
    requires
        pop_run::<S, ST>(states, popped),
        0 <= i <= j <= popped.len(),
    ensures
        states[j].subset_of(states[i]),
    decreases j - i,
{
    if i < j {
        lemma_pops_only_shrink::<S, ST>(states, popped, i, j - 1);
        assert(pop_step::<S, ST>(states[j - 1], popped[j - 1], states[j - 1 + 1]));
        assert(states[j].subset_of(states[j - 1]));
    }
}

/// Whatever was pushed before, repeated removals hand the stamps out in
/// non-increasing order: a value popped later never has a stamp after that of
/// a value popped earlier.
pub proof fn lemma_pops_never_increase<S: Stamped<ST>, ST: Ord>(
    states: Seq<Multiset<S>>,
    popped: Seq<Option<S>>,
    i: int,
    j: int,
)
    requires
        is_total_order::<ST>(),
        pop_run::<S, ST>(states, popped),
        0 <= i <= j < popped.len(),
        popped[j] is Some,
    ensures
        popped[i] is Some,
        stamp_le(popped[j]->0.stamp(), popped[i]->0.stamp()),
{
    let later = popped[j]->0;
    lemma_pops_only_shrink::<S, ST>(states, popped, i, j);
    assert(pop_step::<S, ST>(states[j], popped[j], states[j + 1]));
    assert(pop_step::<S, ST>(states[i], popped[i], states[i + 1]));
    assert(states[i].count(later) > 0);
}

/// A binary max-heap of adapters, kept in a vector.
///
/// Where the stamps are totally ordered, the front is a value with the
/// greatest stamp. Pushing and popping take a number of comparisons that
/// grows with the logarithm of the length; peeking takes none.
pub struct StampedBinaryHeap<S: Stamped<ST>, ST: Ord> {
    items: Vec<StampOrdered<S, ST>>,
}

impl<S: Stamped<ST>, ST: Ord> View for StampedBinaryHeap<S, ST> {
    type V = Multiset<S>;

    closed spec fn view(&self) -> Multiset<S> {
        values(self.items@)
    }
}

impl<S: Stamped<ST>, ST: Ord> StampedBinaryHeap<S, ST> {
    #[verifier::type_invariant]
    spec fn well_formed(self) -> bool {
        is_total_order::<ST>() ==> heap_ordered(self.items@)
    }

    /// An empty queue.
    pub fn new() -> (heap: StampedBinaryHeap<S, ST>)
        ensures
            heap@ == Multiset::<S>::empty(),
    {
        let heap = StampedBinaryHeap { items: Vec::new() };
        proof {
            lemma_no_items_no_values(heap.items@);
        }
        heap
    }

    /// The number of values in the queue.
    pub fn len(&self) -> (count: usize)
        ensures
            count == self@.len(),
    {
        proof {
            lemma_values_len(self.items@);
        }
        self.items.len()
    }

    /// Whether the queue holds no value.
    pub fn is_empty(&self) -> (empty: bool)
        ensures
            empty == (self@.len() == 0),
    {
        self.len() == 0
    }
}

impl<S: Stamped<ST>, ST: Ord> StampedHeap<S, ST> for StampedBinaryHeap<S, ST> {
    closed spec fn peeked(&self) -> Option<S> {
        if self.items@.len() == 0 {
            None
        } else {
            Some(self.items@[0]@)
        }
    }

    fn push_stamped(&mut self, stamped: S) {
        proof {
            use_type_invariant(&*self);
        }
        let mut items = Vec::new();
        std::mem::swap(&mut items, &mut self.items);
        push_item(&mut items, StampOrdered::new(stamped));
        self.items = items;
    }

    fn pop_stamped(&mut self) -> (popped: Option<S>) {
        proof {
            use_type_invariant(&*self);
            lemma_values_len(self.items@);
            if self.items@.len() > 0 {
                lemma_root_is_front(self.items@);
            }
        }
        let mut items = Vec::new();
        std::mem::swap(&mut items, &mut self.items);
        let root = pop_root(&mut items);
        self.items = items;
        match root {
            Some(adapter) => Some(adapter.into_stamped()),
            None => None,
        }
    }

    fn peek_stamped(&self) -> (top: Option<&S>) {
        proof {
            use_type_invariant(self);
            lemma_values_len(self.items@);
            if self.items@.len() > 0 {
                lemma_root_is_front(self.items@);
            }
        }
        if self.items.len() == 0 {
            None
        } else {
            Some(self.items[0].stamped_ref())
        }
    }
}

} // verus!
