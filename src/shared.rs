//! A handle that shares one value among its clones.
use vstd::prelude::*;

verus! {

/// A shared handle: every clone refers to the same value, which lives as
/// long as a clone does.
#[derive(Debug)]
pub struct Arc<T> {
    inner: std::sync::Arc<T>,
}

/// Relies on std's `Arc::clone`: the clone refers to the same value.
#[verifier::external_body]
fn arc_clone<T>(a: &std::sync::Arc<T>) -> (r: std::sync::Arc<T>)
    ensures
        r == *a,
{
    std::sync::Arc::clone(a)
}

/// Relies on std's `Arc::as_ref`: a reference to the shared value.
#[verifier::external_body]
fn arc_as_ref<T>(a: &std::sync::Arc<T>) -> (r: &T)
    ensures
        *r == **a,
{
    a.as_ref()
}

impl<T> View for Arc<T> {
    type V = T;

    closed spec fn view(&self) -> T {
        *self.inner
    }
}

impl<T> Arc<T> {
    /// A handle to a new shared value.
    pub fn new(data: T) -> (r: Arc<T>)
        ensures
            r@ == data,
    {
        Arc { inner: std::sync::Arc::new(data) }
    }

    /// The shared value.
    pub fn get(&self) -> (r: &T)
        ensures
            *r == self@,
    {
        arc_as_ref(&self.inner)
    }
}

impl<T> core::ops::Deref for Arc<T> {
    type Target = T;

    fn deref(&self) -> (r: &T)
        ensures
            *r == self@,
    {
        arc_as_ref(&self.inner)
    }
}

impl<T> Clone for Arc<T> {
    fn clone(&self) -> (r: Self)
        ensures
            r@ == self@,
    {
        Arc { inner: arc_clone(&self.inner) }
    }
}

} // verus!
