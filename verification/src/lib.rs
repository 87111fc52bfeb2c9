//! A semispace copying garbage collector over one contiguous memory region.

use vstd::prelude::*;

pub mod bump;
pub mod copying;
pub mod cycle;
pub mod gc;
pub mod gc_ptr;
pub mod handles;
pub mod laws;
pub mod marking;
pub mod mem;
pub mod model;
pub mod prefix;
pub mod relocating;
pub mod tag_ptr;
pub mod vtable;

pub use gc::GCAlloc;
pub use gc::Handle;
pub use gc_ptr::Gc;
pub use prefix::PrefixTable;
pub use tag_ptr::TaggedPtr;
pub use vtable::SizeKind;
pub use vtable::VTPtr;
pub use vtable::VTable;

verus! {

/// The bytes that a cell's header takes: two words.
pub const HEADER_SIZE: usize = 16;

/// Every cell starts at a multiple of this and has a multiple of this as size.
pub const ALIGNMENT: usize = 16;

/// The header of a cell: one word that is either the cell's descriptor with
/// the mark bit or, between copying and the end of a collection, the address
/// that the cell's payload moved to; and the cell's size.
#[derive(Clone, Copy, Debug)]
pub struct GCHeader {
    word: usize,
    sz: usize,
}

impl GCHeader {
    /// The first word as stored.
    pub closed spec fn word(&self) -> usize {
        self.word
    }

    /// The cell's size in bytes, header included.
    pub closed spec fn size_spec(&self) -> usize {
        self.sz
    }

    /// The descriptor's address, when the first word is a descriptor.
    pub open spec fn desc(&self) -> int {
        self.word() - self.word() as int % 2
    }

    /// Whether the mark bit is set, when the first word is a descriptor.
    pub open spec fn marked(&self) -> bool {
        self.word() as int % 2 == 1
    }

    /// The header of a cell of `sz` bytes with the descriptor `vt`.
    pub fn new(vt: VTPtr, sz: usize) -> (h: Self)
        ensures
            h.word() == vt.word(),
            h.size_spec() == sz,
    {
        GCHeader { word: vt.to_word(), sz }
    }

    /// The first word read as a descriptor with its mark bit.
    pub fn get_vt(&self) -> (vt: VTPtr)
        ensures
            vt.word() == self.word(),
    {
        VTPtr::from_word(self.word)
    }

    /// Sets the mark bit and says whether it was set before.
    pub fn mark(&mut self) -> (was_marked: bool)
        ensures
            was_marked == old(self).marked(),
            final(self).marked(),
            final(self).desc() == old(self).desc(),
            final(self).size_spec() == old(self).size_spec(),
    {
        let mut vt = self.get_vt();
        let was_marked = vt.is_marked();
        if was_marked {
            return true;
        }
        vt.mark();
        self.word = vt.to_word();
        false
    }

    /// Clears the mark bit.
    pub fn unmark(&mut self)
        ensures
            !final(self).marked(),
            final(self).desc() == old(self).desc(),
            final(self).size_spec() == old(self).size_spec(),
    {
        let mut vt = self.get_vt();
        vt.unmark();
        self.word = vt.to_word();
    }

    /// Replaces the first word with the address that the payload moved to.
    pub fn set_fwd_ptr(&mut self, ptr: usize)
        ensures
            final(self).word() == ptr,
            final(self).size_spec() == old(self).size_spec(),
    {
        self.word = ptr;
    }

    /// The first word read as the address that the payload moved to.
    pub fn fwd_ptr(&self) -> (ptr: usize)
        ensures
            ptr == self.word(),
    {
        self.word
    }

    /// The cell's size in bytes, header included.
    pub fn size(&self) -> (sz: usize)
        ensures
            sz == self.size_spec(),
    {
        self.sz
    }
}

} // verus!
