//! Ordering by stamp.
//!
//! A stamp is a key by which a value is ordered: a time, a priority, a
//! sequence number. A value that has one implements [`Stamped`]; it needs no
//! order of its own.
//!
//! - [`stamp`]: the capability, the order of stamps, and the comparison of two
//!   stamped values by their stamps.
//! - [`ordered`]: [`StampOrdered`], an adapter around a stamped value that is
//!   equal and ordered by the stamp alone.
//! - [`vector`]: wrapping a whole vector in adapters and unwrapping it again.
//! - [`heap`]: a priority queue that takes and gives the bare values and hands
//!   out the greatest stamp first.
//! - [`reverse`]: stamped values inside `revord::RevOrd`.

pub mod heap;
pub mod ordered;
pub mod reverse;
mod sift;
pub mod stamp;
pub mod vector;

pub use heap::{StampedBinaryHeap, StampedHeap};
pub use ordered::StampOrdered;
pub use stamp::{get_stamp_ref, stamp_ref_cmp, Stamped};
pub use vector::{wrap_vector_stamp_ordering, StampOrderedVec};
