//! The two calls on `std::sync::Arc` that have no verified contract of
//! their own. Their bodies are not verified; each states what is taken on
//! trust.

use vstd::prelude::*;
use std::sync::Arc;

verus! {

/// `Arc::clone`: a second handle on the allocation of `handle`. It points
/// to the same value, so to a value equal to the one `handle` points to.
#[verifier::external_body]
pub(crate) fn share<T>(handle: &Arc<T>) -> (second: Arc<T>)
    ensures
        second == *handle,
{
    Arc::clone(handle)
}

/// `Arc::strong_count`: the number of handles on the allocation of `handle`
/// at the time of the call. Nothing is claimed of it: the count depends on
/// every handle alive in the program, not on the value pointed to.
#[verifier::external_body]
pub(crate) fn handles<T>(handle: &Arc<T>) -> (count: usize) {
    Arc::strong_count(handle)
}

} // verus!
