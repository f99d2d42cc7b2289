use std::sync::Arc;
use vstd::prelude::*;

verus! {

/// `Arc::clone`: a second handle to the same allocation, so both hold the same
/// value.
#[verifier::external_body]
pub(crate) fn share<T>(handle: &Arc<T>) -> (shared: Arc<T>)
    ensures
        shared == *handle,
{
    Arc::clone(handle)
}

/// The owning handle of a bean. The bean lives as long as any handle to it
/// does, and is released with the last one.
pub struct UnknownPointer<B> {
    pointer: Arc<B>,
}

impl<B> View for UnknownPointer<B> {
    type V = B;

    /// The bean that the handle owns.
    closed spec fn view(&self) -> B {
        *self.pointer
    }
}

impl<B> UnknownPointer<B> {
    /// Takes ownership of a heap-allocated bean.
    pub fn new(bean: Box<B>) -> (pointer: Self)
        ensures
            pointer@ == *bean,
    {
        UnknownPointer { pointer: Arc::new(*bean) }
    }

    /// The bean behind the handle.
    pub fn get(&self) -> (bean: &B)
        ensures
            *bean == self@,
    {
        &*self.pointer
    }

    /// Another handle to the same bean.
    pub fn share(&self) -> (other: Self)
        ensures
            other == *self,
    {
        UnknownPointer { pointer: share(&self.pointer) }
    }
}

} // verus!
