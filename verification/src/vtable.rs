//! Type descriptors: the word that names one in a cell's header, and the
//! callbacks through which the collector reaches a payload's managed pointers.

use crate::gc::GCAlloc;
use crate::marking::{mark_ok, marked_at, traced};
use crate::model::{base_ok, is_payload, new_base, new_cells, pointers_valid, slots_ok, Layout};
use crate::relocating::{reloc_ok, rewritten, stale};
use crate::tag_ptr::TaggedPtr;
use vstd::prelude::*;

verus! {

/// A descriptor's address with the mark bit in its lowest bit. The null
/// address stands for a free cell.
#[derive(Debug, Clone, Copy, PartialEq, Eq, PartialOrd, Ord, Hash)]
pub struct VTPtr(TaggedPtr<1, ()>);

impl VTPtr {
    /// The word as stored in a header.
    pub closed spec fn word(&self) -> usize {
        self.0.raw()
    }

    /// The descriptor's address: the word without its lowest bit.
    pub open spec fn desc(&self) -> int {
        self.word() - self.word() as int % 2
    }

    /// Whether the mark bit is set.
    pub open spec fn marked(&self) -> bool {
        self.word() as int % 2 == 1
    }

    /// An unmarked pointer to the descriptor at the even address `ptr`.
    pub fn new(ptr: usize) -> (r: Self)
        requires
            ptr as int % 2 == 0,
        ensures
            r.desc() == ptr,
            !r.marked(),
            r.word() == ptr,
    {
        proof {
            vstd::arithmetic::power2::lemma2_to64();
        }
        VTPtr(TaggedPtr::new(ptr, 0))
    }

    /// The pointer in a free cell's header: null and unmarked.
    pub fn new_free() -> (r: Self)
        ensures
            r.desc() == 0,
            !r.marked(),
            r.word() == 0,
    {
        proof {
            vstd::arithmetic::power2::lemma2_to64();
        }
        VTPtr(TaggedPtr::new(0, 0))
    }

    /// The pointer that the header word `w` holds.
    pub fn from_word(w: usize) -> (r: Self)
        ensures
            r.word() == w,
    {
        proof {
            vstd::arithmetic::power2::lemma2_to64();
            vstd::arithmetic::div_mod::lemma_fundamental_div_mod(w as int, 2);
        }
        let tag = w % 2;
        VTPtr(TaggedPtr::new(w - tag, tag))
    }

    /// The word to store in a header.
    pub fn to_word(&self) -> (w: usize)
        ensures
            w == self.word(),
    {
        proof {
            vstd::arithmetic::power2::lemma2_to64();
        }
        self.0.ptr() + self.0.tag()
    }

    pub fn ptr(&self) -> (p: usize)
        ensures
            p == self.desc(),
    {
        proof {
            vstd::arithmetic::power2::lemma2_to64();
        }
        self.0.ptr()
    }

    pub fn is_free(&self) -> (b: bool)
        ensures
            b == (self.desc() == 0),
    {
        self.ptr() == 0
    }

    pub fn mark(&mut self)
        ensures
            final(self).desc() == old(self).desc(),
            final(self).marked(),
    {
        proof {
            vstd::arithmetic::power2::lemma2_to64();
        }
        self.0.set_tag(1);
    }

    pub fn unmark(&mut self)
        ensures
            final(self).desc() == old(self).desc(),
            !final(self).marked(),
    {
        proof {
            vstd::arithmetic::power2::lemma2_to64();
        }
        self.0.set_tag(0);
    }

    pub fn is_marked(&self) -> (b: bool)
        ensures
            b == self.marked(),
    {
        proof {
            vstd::arithmetic::power2::lemma2_to64();
        }
        self.0.tag() == 1
    }
}

/// How the size of a payload is found.
pub enum SizeKind<F> {
    /// Every payload has this size, which is not zero.
    Fixed(usize),
    /// The callback tells the size of the payload at an address.
    Variable(F),
}

impl<F> SizeKind<F> {
    /// A fixed size is never zero.
    pub open spec fn wf(&self) -> bool {
        self matches SizeKind::Fixed(size) ==> size > 0
    }

    /// The fixed size `size`.
    pub fn fixed(size: usize) -> (r: Self)
        requires
            size > 0,
        ensures
            r == SizeKind::<F>::Fixed(size),
            r.wf(),
    {
        SizeKind::Fixed(size)
    }

    /// The fixed size of the values of type `T`.
    pub fn of<T>() -> (r: Self)
        requires
            vstd::layout::size_of::<T>() > 0,
        ensures
            r == SizeKind::<F>::Fixed(vstd::layout::size_of::<T>() as usize),
            r.wf(),
    {
        Self::fixed(core::mem::size_of::<T>())
    }

    /// A size that `cb` tells for each payload.
    pub fn callback(cb: F) -> (r: Self)
        ensures
            r == SizeKind::Variable(cb),
            r.wf(),
    {
        SizeKind::Variable(cb)
    }
}

/// The descriptors of an embedder's payload types, with the callbacks through
/// which the collector reaches the managed pointers that payloads hold.
///
/// What the collector promises rests on the contracts of the callbacks: an
/// implementation that Verus has not verified is taken at its word.
pub trait VTable: Sized {
    /// The word indices, within a payload of `len` bytes whose descriptor is
    /// `vt`, of the words that hold managed pointers. A null word is no
    /// pointer. Unless an implementation says otherwise, payloads hold none.
    open spec fn slots(&self, vt: usize, len: int) -> Seq<int> {
        Seq::empty()
    }

    /// Called on each payload that a collection found reachable: tells the
    /// collector, with `GCAlloc::mark_accessible`, of every managed pointer
    /// in the payload at `ptr`.
    fn mark_cb(&self, gc: &mut GCAlloc, ptr: usize)
        requires
            mark_ok(old(gc)@),
            slots_ok(|vt: usize, len: int| self.slots(vt, len)),
            pointers_valid(old(gc)@, |vt: usize, len: int| self.slots(vt, len)),
            is_payload(old(gc)@.cells, old(gc)@.from, ptr as int),
        ensures
            final(gc)@ == traced(old(gc)@, |vt: usize, len: int| self.slots(vt, len), ptr as int),
    ;

    /// Called on each payload that a collection moved, and on a payload that
    /// was written while a collection moved its targets: replaces, with
    /// `GCAlloc::rewrite_ptr`, every managed pointer in the payload at `ptr`
    /// by the address that its target moved to.
    fn rewrite_cb(&self, gc: &mut GCAlloc, ptr: usize)
        requires
            reloc_ok(old(gc)@),
            slots_ok(|vt: usize, len: int| self.slots(vt, len)),
            is_payload(new_cells(old(gc)@), new_base(old(gc)@), ptr as int),
            stale(old(gc)@, |vt: usize, len: int| self.slots(vt, len), ptr as int),
        ensures
            final(gc)@ == rewritten(
                old(gc)@,
                |vt: usize, len: int| self.slots(vt, len),
                ptr as int,
            ),
    ;

    /// Called on each payload that a collection found unreachable, before its
    /// storage is given up: releases what the payload at `ptr` owns outside
    /// the heap. The collector's state stays as it is.
    fn free_cb(&self, gc: &mut GCAlloc, ptr: usize)
        requires
            base_ok(old(gc)@),
            old(gc)@.in_gc,
            is_payload(old(gc)@.cells, old(gc)@.from, ptr as int),
            !marked_at(old(gc)@.mem, ptr as int),
        ensures
            final(gc)@ == old(gc)@,
    ;
}

/// The layout that a descriptor set gives to payloads.
pub open spec fn layout_of<V: VTable>(t: &V) -> Layout {
    |vt: usize, len: int| t.slots(vt, len)
}

} // verus!
