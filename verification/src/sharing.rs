//! Reference-counted values as the library hands them around: a fixture
//! template and the strings in it are shared, never copied.

use std::sync::Arc;
use vstd::prelude::*;

verus! {

/// Another handle on the same value.
///
/// Calls `Arc::clone`, which makes a second pointer to the allocation and
/// leaves the value behind it untouched: the result is equal to the argument.
#[verifier::external_body]
pub(crate) fn share<T: ?Sized>(value: &Arc<T>) -> (r: Arc<T>)
    ensures
        r == *value,
{
    Arc::clone(value)
}

/// The items of a vector as a shared slice, in the same order.
///
/// Calls `Arc::from` on the vector (`From<Vec<T>> for Arc<[T]>`), which moves
/// the items into a new allocation without changing them.
#[verifier::external_body]
pub(crate) fn share_items<T>(items: Vec<T>) -> (r: Arc<[T]>)
    ensures
        r@ == items@,
{
    Arc::from(items)
}

/// A text as a shared string with the same characters.
///
/// Calls `Arc::from` on the `str` (`From<&str> for Arc<str>`), which copies
/// the text into a new allocation.
#[verifier::external_body]
pub(crate) fn share_text(text: &str) -> (r: Arc<str>)
    ensures
        r@ == text@,
{
    Arc::from(text)
}

} // verus!
