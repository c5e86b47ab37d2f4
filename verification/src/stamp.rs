//! The stamp capability and direct comparison of stamped values.

use std::cmp::Ordering;
use vstd::laws_cmp::{obeys_cmp, obeys_cmp_ord, obeys_partial_cmp_spec_properties};
use vstd::laws_eq::obeys_eq_spec_properties;
use vstd::prelude::*;
use vstd::std_specs::cmp::OrdSpec;

verus! {

/// A value that carries an ordering key, its stamp.
///
/// `stamp` is the mathematical stamp of the value; `stamp_ref` hands out a
/// reference to exactly that stamp, so two calls on an unchanged value agree.
/// The value is neither copied nor changed. `stamp` serves the proofs alone:
/// no compiled code calls it.
pub trait Stamped<ST: Ord> {
    /// The stamp of this value.
    spec fn stamp(&self) -> ST;

    /// A reference to the stamp of this value.
    fn stamp_ref(&self) -> (key: &ST)
        ensures
            *key == self.stamp(),
    ;
}

/// `a` does not come after `b` in the order of the stamp type.
pub open spec fn stamp_le<ST: Ord>(a: ST, b: ST) -> bool {
    a.cmp_spec(&b) != Ordering::Greater
}

/// The comparison of `ST` is a total order, and the executable `cmp` computes
/// it: every stamp is level with itself, turning a comparison round turns its
/// answer round, and "not after" carries over a stamp in the middle.
///
/// Stamps that compare `Equal` need not be the same value.
pub open spec fn is_total_order<ST: Ord>() -> bool {
    &&& ST::obeys_cmp_spec()
    &&& forall|a: ST| #[trigger] a.cmp_spec(&a) == Ordering::Equal
    &&& forall|a: ST, b: ST|
        (#[trigger] a.cmp_spec(&b) == Ordering::Less) <==> b.cmp_spec(&a) == Ordering::Greater
    &&& forall|a: ST, b: ST, c: ST|
        #[trigger] stamp_le(a, b) && #[trigger] stamp_le(b, c) ==> stamp_le(a, c)
}

/// A stamp type whose `==`, `partial_cmp` and `cmp` keep the laws of the
/// standard comparison traits is totally ordered.
pub proof fn lemma_lawful_order_is_total<ST: Ord>()
    requires
        obeys_cmp::<ST>(),
    ensures
        is_total_order::<ST>(),
{
    reveal(obeys_cmp_ord);
    reveal(obeys_partial_cmp_spec_properties);
    reveal(obeys_eq_spec_properties);
}

/// In a total order every stamp is at its own place.
pub proof fn lemma_stamp_le_reflexive<ST: Ord>(a: ST)
    requires
        is_total_order::<ST>(),
    ensures
        stamp_le(a, a),
{
}

/// In a total order any two stamps are comparable.
pub proof fn lemma_stamp_le_total<ST: Ord>(a: ST, b: ST)
    requires
        is_total_order::<ST>(),
    ensures
        stamp_le(a, b) || stamp_le(b, a),
{
}

/// In a total order "not after" carries over a stamp in the middle.
pub proof fn lemma_stamp_le_transitive<ST: Ord>(a: ST, b: ST, c: ST)
    requires
        is_total_order::<ST>(),
        stamp_le(a, b),
        stamp_le(b, c),
    ensures
        stamp_le(a, c),
{
}

/// The stamp of `stamped`, by reference.
pub fn get_stamp_ref<S: Stamped<ST>, ST: Ord>(stamped: &S) -> (key: &ST)
    ensures
        *key == stamped.stamp(),
{
    stamped.stamp_ref()
}

/// Compares two stamped values by their stamps alone: the answer is the one
/// that `cmp` of the stamp type gives on the two stamps.
pub fn stamp_ref_cmp<S: Stamped<ST>, ST: Ord>(a: &S, b: &S) -> (order: Ordering)
    ensures
        call_ensures(ST::cmp, (&a.stamp(), &b.stamp()), order),
        ST::obeys_cmp_spec() ==> order == a.stamp().cmp_spec(&b.stamp()),
{
    a.stamp_ref().cmp(b.stamp_ref())
}

/// Whether the stamp of `a` does not come after the stamp of `b`.
pub(crate) fn stamp_ref_le<S: Stamped<ST>, ST: Ord>(a: &S, b: &S) -> (le: bool)
    ensures
        ST::obeys_cmp_spec() ==> le == stamp_le(a.stamp(), b.stamp()),
{
    match stamp_ref_cmp(a, b) {
        Ordering::Greater => false,
        _ => true,
    }
}

} // verus!
