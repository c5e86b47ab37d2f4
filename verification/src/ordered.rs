//! The adapter that orders a stamped value by its stamp alone.

use crate::stamp::{
    is_total_order, lemma_lawful_order_is_total, lemma_stamp_le_transitive, stamp_le, Stamped,
};
use std::cmp::Ordering;
use std::marker::PhantomData;
use vstd::laws_cmp::{obeys_cmp, obeys_cmp_ord, obeys_cmp_partial_ord};
use vstd::prelude::*;
use vstd::std_specs::cmp::{OrdSpec, PartialEqSpec, PartialOrdSpec};

verus! {

/// A stamped value that is compared by its stamp and by nothing else.
///
/// Two adapters whose stamps compare equal are equal to `==` and to every
/// comparison, also where the values they wrap differ. The view is the wrapped
/// value.
pub struct StampOrdered<S: Stamped<ST>, ST: Ord>(S, PhantomData<ST>);

impl<S: Stamped<ST>, ST: Ord> View for StampOrdered<S, ST> {
    type V = S;

    closed spec fn view(&self) -> S {
        self.0
    }
}

impl<S: Stamped<ST>, ST: Ord> StampOrdered<S, ST> {
    /// Wraps `stamped`.
    pub fn new(stamped: S) -> (wrapped: StampOrdered<S, ST>)
        ensures
            wrapped@ == stamped,
    {
        StampOrdered(stamped, PhantomData)
    }

    /// The wrapped value, by reference.
    pub fn stamped_ref(&self) -> (stamped: &S)
        ensures
            *stamped == self@,
    {
        &self.0
    }

    /// Takes the wrapped value out.
    pub(crate) fn into_stamped(self) -> (stamped: S)
        ensures
            stamped == self@,
    {
        self.0
    }

    /// How this adapter stands to `other`: as its stamp stands to the stamp of
    /// `other`.
    pub open spec fn order_by_stamp(&self, other: &StampOrdered<S, ST>) -> Ordering {
        self@.stamp().cmp_spec(&other@.stamp())
    }

    /// Three-way comparison of two adapters: the answer is the one that `cmp`
    /// of the stamp type gives on the two stamps.
    pub fn cmp(&self, other: &StampOrdered<S, ST>) -> (order: Ordering)
        ensures
            call_ensures(ST::cmp, (&self@.stamp(), &other@.stamp()), order),
            ST::obeys_cmp_spec() ==> order == self.order_by_stamp(other),
    {
        self.stamp_ref().cmp(other.stamp_ref())
    }

    /// Adapters with the same stamp are equal to `==`, to `partial_cmp` and to
    /// `cmp`, whether or not they wrap the same value.
    pub proof fn lemma_same_stamp_compares_equal(a: StampOrdered<S, ST>, b: StampOrdered<S, ST>)
        requires
            obeys_cmp::<ST>(),
            a@.stamp() == b@.stamp(),
        ensures
            a.eq_spec(&b),
            a.partial_cmp_spec(&b) == Some(Ordering::Equal),
            a.order_by_stamp(&b) == Ordering::Equal,
    {
        lemma_lawful_order_is_total::<ST>();
        Self::lemma_comparisons_agree(a, b);
    }

    /// The comparisons of the adapter agree with each other: `==` holds exactly
    /// where the order is `Equal`, and `partial_cmp` always gives the order.
    pub proof fn lemma_comparisons_agree(a: StampOrdered<S, ST>, b: StampOrdered<S, ST>)
        requires
            obeys_cmp::<ST>(),
        ensures
            a.eq_spec(&b) <==> (a.order_by_stamp(&b) == Ordering::Equal),
            a.partial_cmp_spec(&b) == Some(a.order_by_stamp(&b)),
    {
        reveal(obeys_cmp_ord);
        reveal(obeys_cmp_partial_ord);
        assert(a@.stamp().partial_cmp_spec(&b@.stamp()) == Some(
            a@.stamp().cmp_spec(&b@.stamp()),
        ));
    }

    /// The order of the adapters is a total order where that of the stamps is:
    /// every adapter is level with itself, turning a comparison round turns
    /// its answer round, and "not after" carries over an adapter in the middle.
    pub proof fn lemma_order_is_total(
        a: StampOrdered<S, ST>,
        b: StampOrdered<S, ST>,
        c: StampOrdered<S, ST>,
    )
        requires
            is_total_order::<ST>(),
        ensures
            a.order_by_stamp(&a) == Ordering::Equal,
            (a.order_by_stamp(&b) == Ordering::Less) <==> (b.order_by_stamp(&a) == Ordering::Greater),
            a.order_by_stamp(&b) != Ordering::Greater && b.order_by_stamp(&c) != Ordering::Greater
                ==> a.order_by_stamp(&c) != Ordering::Greater,
    {
        let (x, y, z) = (a@.stamp(), b@.stamp(), c@.stamp());
        if stamp_le(x, y) && stamp_le(y, z) {
            lemma_stamp_le_transitive(x, y, z);
        }
    }
}

impl<S: Stamped<ST>, ST: Ord> Stamped<ST> for StampOrdered<S, ST> {
    /// The stamp of an adapter is the stamp of what it wraps.
    open spec fn stamp(&self) -> ST {
        self@.stamp()
    }

    fn stamp_ref(&self) -> (key: &ST) {
        self.stamped_ref().stamp_ref()
    }
}

impl<S: Stamped<ST>, ST: Ord> vstd::std_specs::cmp::PartialEqSpecImpl for StampOrdered<S, ST> {
    open spec fn obeys_eq_spec() -> bool {
        ST::obeys_eq_spec()
    }

    open spec fn eq_spec(&self, other: &StampOrdered<S, ST>) -> bool {
        self@.stamp().eq_spec(&other@.stamp())
    }
}

impl<S: Stamped<ST>, ST: Ord> PartialEq for StampOrdered<S, ST> {
    /// Whether the two stamps are equal: the answer is the one that `==` of
    /// the stamp type gives on the two stamps.
    fn eq(&self, other: &StampOrdered<S, ST>) -> (same: bool)
        ensures
            call_ensures(ST::eq, (&self@.stamp(), &other@.stamp()), same),
    {
        self.stamp_ref().eq(other.stamp_ref())
    }
}

impl<S: Stamped<ST>, ST: Ord> Eq for StampOrdered<S, ST> {}

impl<S: Stamped<ST>, ST: Ord> vstd::std_specs::cmp::PartialOrdSpecImpl for StampOrdered<S, ST> {
    open spec fn obeys_partial_cmp_spec() -> bool {
        ST::obeys_partial_cmp_spec()
    }

    open spec fn partial_cmp_spec(&self, other: &StampOrdered<S, ST>) -> Option<Ordering> {
        self@.stamp().partial_cmp_spec(&other@.stamp())
    }
}

impl<S: Stamped<ST>, ST: Ord> PartialOrd for StampOrdered<S, ST> {
    /// How the two stamps stand to each other: the answer is the one that
    /// `partial_cmp` of the stamp type gives on the two stamps.
    fn partial_cmp(&self, other: &StampOrdered<S, ST>) -> (order: Option<Ordering>)
        ensures
            call_ensures(ST::partial_cmp, (&self@.stamp(), &other@.stamp()), order),
    {
        self.stamp_ref().partial_cmp(other.stamp_ref())
    }
}

} // verus!
