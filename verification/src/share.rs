//! Sharing of what lies behind an `Arc`.

use vstd::prelude::*;
use std::sync::Arc;

verus! {

/// `Arc::clone`: another handle to the value that `a` points to. Nothing is
/// copied, so the new handle stands for the same value.
#[verifier::external_body]
pub(crate) fn share<T>(a: &Arc<T>) -> (res: Arc<T>)
    ensures
        res == *a,
{
    Arc::clone(a)
}

/// `Arc::ptr_eq`: whether two handles point to the same allocation. Two
/// that do stand for the same value; two that do not may still hold equal
/// values.
#[verifier::external_body]
pub(crate) fn same_allocation<T>(a: &Arc<T>, b: &Arc<T>) -> (res: bool)
    ensures
        res ==> *a == *b,
{
    Arc::ptr_eq(a, b)
}

/// Another handle to an optional shared value.
pub(crate) fn share_opt<T>(a: &Option<Arc<T>>) -> (res: Option<Arc<T>>)
    ensures
        res == *a,
{
    match a {
        Some(p) => Some(share(p)),
        None => None,
    }
}

} // verus!
