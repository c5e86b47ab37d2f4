//! Wrapping and unwrapping whole vectors of stamped values.

use crate::ordered::StampOrdered;
use crate::stamp::Stamped;
use vstd::prelude::*;

verus! {

/// The values that a sequence of adapters wraps, one for one and in the same
/// order.
pub open spec fn unwrapped<S: Stamped<ST>, ST: Ord>(adapters: Seq<StampOrdered<S, ST>>) -> Seq<S> {
    Seq::new(adapters.len(), |i: int| adapters[i]@)
}

/// A vector of adapters that can be turned back into the values it wraps.
pub trait StampOrderedVec<S: Stamped<ST>, ST: Ord> {
    /// The wrapped values, in the order of the adapters.
    spec fn stamped_values(&self) -> Seq<S>;

    /// Unwraps every element: nothing is dropped and nothing changes place.
    fn unwrap_ordering(self) -> (values: Vec<S>)
        ensures
            values@ == self.stamped_values(),
    ;
}

impl<S: Stamped<ST>, ST: Ord> StampOrderedVec<S, ST> for Vec<StampOrdered<S, ST>> {
    open spec fn stamped_values(&self) -> Seq<S> {
        unwrapped(self@)
    }

    fn unwrap_ordering(self) -> (values: Vec<S>) {
        let ghost adapters = self@;
        let mut values: Vec<S> = Vec::with_capacity(self.len());
        for adapter in iter: self
            invariant
                iter.seq() == adapters,
                values@ == unwrapped(adapters.take(iter.index())),
        {
            values.push(adapter.into_stamped());
        }
        values
    }
}

/// Wraps every element of `vec`: nothing is dropped and nothing changes place.
pub fn wrap_vector_stamp_ordering<ST: Ord, S: Stamped<ST>>(vec: Vec<S>) -> (adapters: Vec<
    StampOrdered<S, ST>,
>)
    ensures
        adapters@.len() == vec@.len(),
        unwrapped(adapters@) == vec@,
{
    let ghost given = vec@;
    let mut adapters: Vec<StampOrdered<S, ST>> = Vec::with_capacity(vec.len());
    for stamped in iter: vec
        invariant
            iter.seq() == given,
            adapters@.len() == iter.index(),
            unwrapped(adapters@) == given.take(iter.index()),
    {
        let ghost before = adapters@;
        adapters.push(StampOrdered::new(stamped));
        assert(unwrapped(adapters@) =~= given.take(iter.index() + 1)) by {
            assert forall|j: int| 0 <= j < iter.index() implies unwrapped(adapters@)[j]
                == given[j] by {
                assert(unwrapped(before)[j] == given.take(iter.index())[j]);
            }
        }
    }
    adapters
}

/// Unwrapping what `wrap_vector_stamp_ordering` made of `given` gives `given`
/// back: the same values at the same places, and as many.
pub proof fn lemma_unwrap_inverts_wrap<S: Stamped<ST>, ST: Ord>(
    given: Vec<S>,
    adapters: Vec<StampOrdered<S, ST>>,
    back: Vec<S>,
)
    requires
        adapters@.len() == given@.len(),
        unwrapped(adapters@) == given@,
        back@ == adapters.stamped_values(),
    ensures
        back@ == given@,
        back@.len() == given@.len(),
        forall|i: int| 0 <= i < given@.len() ==> back@[i] == given@[i],
{
}

} // verus!
