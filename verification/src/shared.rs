//! Shared ownership.

use std::sync::Arc;

use vstd::prelude::*;

verus! {

/// `Arc::clone` hands out another handle to the same value.
#[verifier::external_body]
pub(crate) fn share<T>(handle: &Arc<T>) -> (r: Arc<T>)
    ensures
        r == *handle,
{
    Arc::clone(handle)
}

/// `Arc::ptr_eq` tells whether two handles lead to one allocation, and so to one
/// value. That two handles lead to different ones says nothing of what these hold.
#[verifier::external_body]
pub(crate) fn same_allocation<T>(a: &Arc<T>, b: &Arc<T>) -> (r: bool)
    ensures
        r ==> *a == *b,
{
    Arc::ptr_eq(a, b)
}

} // verus!
