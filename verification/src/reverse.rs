//! Stamped values inside the reversed-order wrapper of the `revord` crate.

use crate::stamp::Stamped;
use revord::RevOrd;
use vstd::prelude::*;

verus! {

/// `revord::RevOrd`, made known to the verifier as its crate declares it: a
/// tuple struct with one public field, the wrapped value. Nothing is assumed
/// of the reversed comparisons that the crate gives the wrapper.
#[verifier::external_type_specification]
#[verifier::reject_recursive_types(V)]
pub struct ExRevOrd<V>(revord::RevOrd<V>);

/// A stamped value in a `RevOrd` keeps its stamp: the wrapper hands on the
/// stamp of what it wraps, unchanged.
///
/// So the wrapper around a *value* does not turn the order of stamped values
/// round. For a queue that hands out the least stamp first, the *stamp type*
/// takes the reversed order, for instance as `RevOrd` around the stamp.
impl<S: Stamped<ST>, ST: Ord> Stamped<ST> for RevOrd<S> {
    open spec fn stamp(&self) -> ST {
        self.0.stamp()
    }

    fn stamp_ref(&self) -> (key: &ST) {
        self.0.stamp_ref()
    }
}

} // verus!
