//! Managed pointers: rewritable, non-null addresses of payloads in the heap.

use core::marker::PhantomData;
use vstd::prelude::*;

verus! {

/// A non-null address of a payload of type `T` inside the collector's heap.
/// The collector moves payloads, so holders replace the address with `set`.
pub struct Gc<T> {
    addr: usize,
    _marker: PhantomData<T>,
}

impl<T> Gc<T> {
    /// The address held.
    pub closed spec fn addr(&self) -> usize {
        self.addr
    }

    /// Every managed pointer is non-null.
    pub open spec fn wf(&self) -> bool {
        self.addr() != 0
    }

    pub fn new(ptr: usize) -> (r: Self)
        requires
            ptr != 0,
        ensures
            r.addr() == ptr,
            r.wf(),
    {
        Gc { addr: ptr, _marker: PhantomData }
    }

    pub fn get(&self) -> (ptr: usize)
        ensures
            ptr == self.addr(),
    {
        self.addr
    }

    pub fn set(&mut self, ptr: usize)
        requires
            ptr != 0,
        ensures
            final(self).addr() == ptr,
            final(self).wf(),
    {
        self.addr = ptr;
    }

    /// The same address seen as a payload of another type. Nothing is checked:
    /// what the payload means is the descriptor's business.
    pub fn cast<U>(&self) -> (r: Gc<U>)
        requires
            self.wf(),
        ensures
            r.addr() == self.addr(),
            r.wf(),
    {
        Gc::new(self.addr)
    }
}

impl<T> Clone for Gc<T> {
    /// A second pointer to the same payload.
    fn clone(&self) -> (r: Self)
        ensures
            r.addr() == self.addr(),
    {
        Gc { addr: self.addr, _marker: PhantomData }
    }
}

/// The address that an optional managed pointer holds.
pub open spec fn addr_of<T>(r: Option<Gc<T>>) -> Option<int> {
    match r {
        Some(p) => Some(p.addr() as int),
        None => None,
    }
}

} // verus!
