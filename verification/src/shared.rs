//! Sharing: values behind reference counts.
//!
//! A snapshot copies one count per clip, and only what a command writes to is
//! copied for real.

use std::sync::Arc;
use vstd::prelude::*;

verus! {

/// Another owner of the same value: `Arc::clone`, which makes another pointer
/// to the same allocation, so the value behind it is the value behind the
/// first.
#[verifier::external_body]
pub(crate) fn share<T>(value: &Arc<T>) -> (r: Arc<T>)
    ensures
        r == *value,
{
    Arc::clone(value)
}

/// The value behind an owner, to write to: `Arc::make_mut`, which hands out the
/// value itself where nobody else shares it, and a clone of it put in its place
/// where somebody does. Either way what is written to the reference is what the
/// owner holds afterwards.
#[verifier::external_body]
pub(crate) fn own<T: Clone>(value: &mut Arc<T>) -> (r: &mut T)
    ensures
        *r == **old(value) || cloned(**old(value), *r),
        **final(value) == *final(r),
{
    Arc::make_mut(value)
}

/// Whether two owners share one value: `Arc::ptr_eq`, which is true only where
/// both point to the same allocation, so that the two values are one. Two
/// equal values behind different allocations are not promised to be told
/// either way.
#[verifier::external_body]
pub(crate) fn shares<T>(a: &Arc<T>, b: &Arc<T>) -> (r: bool)
    ensures
        r ==> *a == *b,
{
    Arc::ptr_eq(a, b)
}

} // verus!
