//! A ready-made set of descriptors: payloads that start with a number of
//! managed pointers and go on with plain bytes.

use crate::gc::GCAlloc;
use crate::gc_ptr::Gc;
use crate::mem::word_limit;
use crate::marking::{pushed};
use crate::model::{
    cell_slots, child, index_of, lemma_payload_bounds, lemma_tiles_within, new_base, new_cells,
    payload, slots_ok, GcView, Layout,
};
use crate::relocating::{lemma_fwd_bounds, lemma_relocated, new_slots_at, relocated, slots_fit};
use crate::vtable::{layout_of, VTable};
use vstd::prelude::*;

verus! {

/// The descriptors `2`, `4`, `6`, ...: a payload with the descriptor
/// `2 * (n + 1)` holds managed pointers in its first `n` words, as far as it
/// has that many, and no others. Its payloads own nothing outside the heap.
pub struct PrefixTable;

/// How many leading words of a payload of `len` bytes with the descriptor
/// `vt` are managed pointers.
pub open spec fn prefix_count(vt: usize, len: int) -> int {
    let named = vt as int / 2 - 1;
    let words = len / 8;
    if named <= 0 || words <= 0 {
        0
    } else if named < words {
        named
    } else {
        words
    }
}

impl PrefixTable {
    /// The descriptor of payloads with `n` leading managed pointers.
    pub fn descriptor(n: usize) -> (vt: usize)
        requires
            2 * (n + 1) <= usize::MAX,
        ensures
            vt == 2 * (n + 1),
            vt != 0,
            vt as int % 2 == 0,
            forall|len: int| 0 <= len ==> #[trigger] prefix_count(vt, len) == if n < len / 8 {
                n as int
            } else {
                len / 8
            },
    {
        2 * (n + 1)
    }

    /// How many leading words of the payload of `size - 16` bytes with the
    /// descriptor `vt` are managed pointers.
    fn count(vt: usize, size: usize) -> (n: usize)
        requires
            size >= 16,
        ensures
            n == prefix_count(vt, size - 16),
            8 * n + 16 <= size,
    {
        let words = (size - 16) / 8;
        if vt / 2 == 0 {
            0
        } else if vt / 2 - 1 < words {
            vt / 2 - 1
        } else {
            words
        }
    }

    /// The leading words are words of the payload, each named once.
    pub proof fn lemma_slots_ok(&self)
        ensures
            slots_ok(layout_of(self)),
    {
        let l = layout_of(self);
        assert forall|vt: usize, len: int, j: int| 0 <= j < l(vt, len).len() implies 0
            <= #[trigger] l(vt, len)[j] && 8 * l(vt, len)[j] + 8 <= len by {
            assert(l(vt, len) == self.slots(vt, len));
        }
        assert forall|vt: usize, len: int, j: int, k: int|
            0 <= j < k < l(vt, len).len() implies #[trigger] l(vt, len)[j] != #[trigger] l(
            vt,
            len,
        )[k] by {
            assert(l(vt, len) == self.slots(vt, len));
        }
    }
}

impl VTable for PrefixTable {
    open spec fn slots(&self, vt: usize, len: int) -> Seq<int> {
        Seq::new(prefix_count(vt, len) as nat, |j: int| j)
    }

    fn mark_cb(&self, gc: &mut GCAlloc, ptr: usize) {
        let ghost v = gc@;
        let ghost l: Layout = |vt: usize, len: int| self.slots(vt, len);
        let ghost i = index_of(v.cells, v.from, ptr as int);
        let ghost slots = cell_slots(l, v.cells[i]);
        proof {
            lemma_payload_bounds(v, ptr as int);
            lemma_tiles_within(v.cells, i);
            assert(crate::model::head_word(v.mem, v.from, v.cells[i]) == v.cells[i].desc
                || crate::model::head_word(v.mem, v.from, v.cells[i]) == v.cells[i].desc + 1);
            assert(crate::model::size_word(v.mem, v.from, v.cells[i]) == v.cells[i].size);
        }
        let hdr = gc.header_of(ptr);
        let n = Self::count(hdr.get_vt().ptr(), hdr.size());
        assert(n == slots.len());
        let mut j: usize = 0;
        while j < n
            invariant
                j <= n,
                n == slots.len(),
                slots == Seq::new(n as nat, |k: int| k),
                crate::marking::mark_ok(v),
                crate::model::pointers_valid(v, l),
                0 <= i < v.cells.len(),
                payload(v.from, v.cells[i]) == ptr,
                slots == cell_slots(l, v.cells[i]),
                8 * n + 16 <= v.cells[i].size,
                ptr + v.cells[i].size - 16 <= v.mem.len(),
                gc@ == (GcView { work: v.work + pushed(v.mem, ptr as int, slots, j as int), ..v }),
            decreases n - j,
        {
            let w = gc.read_word(ptr + 8 * j);
            proof {
                let c = child(v.mem, payload(v.from, v.cells[i]), cell_slots(l, v.cells[i])[j as int]);
                assert(c == crate::mem::word_at(v.mem, ptr + 8 * j));
                if c != 0 {
                    lemma_payload_bounds(v, c);
                }
                assert(w == c);
                assert(pushed(v.mem, ptr as int, slots, j + 1) == if c == 0 {
                    pushed(v.mem, ptr as int, slots, j as int)
                } else {
                    pushed(v.mem, ptr as int, slots, j as int).push((c - 16) as usize)
                });
            }
            if w != 0 {
                gc.mark_accessible(Gc::<u8>::new(w));
                assert(gc@.work =~= v.work + pushed(v.mem, ptr as int, slots, j + 1));
            }
            j += 1;
        }
        proof {
            assert(crate::marking::slots_at(v, l, ptr as int) == slots);
        }
    }

    fn rewrite_cb(&self, gc: &mut GCAlloc, ptr: usize) {
        let ghost v = gc@;
        let ghost l: Layout = |vt: usize, len: int| self.slots(vt, len);
        let ghost cells = new_cells(v);
        let ghost i = index_of(cells, new_base(v), ptr as int);
        let ghost slots = cell_slots(l, cells[i]);
        proof {
            lemma_tiles_within(cells, i);
            assert(crate::model::head_word(v.mem, new_base(v), cells[i]) == cells[i].desc);
            assert(crate::model::size_word(v.mem, new_base(v), cells[i]) == cells[i].size);
            assert(new_slots_at(v, l, ptr as int) == slots);
        }
        let hdr = gc.header_of(ptr);
        let n = Self::count(hdr.get_vt().ptr(), hdr.size());
        assert(n == slots.len());
        proof {
            assert(slots_fit(slots, cells[i].size - 16));
            assert forall|k: int| 0 <= k < slots.len() implies #[trigger] child(
                v.mem,
                ptr as int,
                slots[k],
            ) == 0 || (v.fwd.contains_key(child(v.mem, ptr as int, slots[k])) && 0
                <= v.fwd[child(v.mem, ptr as int, slots[k])] < word_limit()) by {
                let w = child(v.mem, ptr as int, new_slots_at(v, l, ptr as int)[k]);
                if w != 0 {
                    lemma_fwd_bounds(v, w);
                }
            }
        }
        let mut j: usize = 0;
        while j < n
            invariant
                j <= n,
                n == slots.len(),
                slots == Seq::new(n as nat, |k: int| k),
                crate::relocating::reloc_ok(v),
                crate::relocating::reloc_ok(gc@),
                cells == new_cells(v),
                0 <= i < cells.len(),
                payload(new_base(v), cells[i]) == ptr,
                8 * n + 16 <= cells[i].size,
                slots_fit(slots, cells[i].size - 16),
                0 <= ptr,
                ptr + cells[i].size - 16 <= v.mem.len(),
                forall|k: int|
                    0 <= k < slots.len() ==> #[trigger] child(v.mem, ptr as int, slots[k]) == 0 || (
                    v.fwd.contains_key(child(v.mem, ptr as int, slots[k])) && 0 <= v.fwd[child(
                        v.mem,
                        ptr as int,
                        slots[k],
                    )] < word_limit()),
                gc@ == (GcView { mem: relocated(v.mem, v.fwd, ptr as int, slots, j as int), ..v }),
            decreases n - j,
        {
            proof {
                lemma_relocated(v.mem, v.fwd, ptr as int, slots, j as int, cells[i].size - 16);
                let m = relocated(v.mem, v.fwd, ptr as int, slots, j as int);
                assert(child(m, ptr as int, slots[j as int]) == child(
                    v.mem,
                    ptr as int,
                    slots[j as int],
                ));
                assert(crate::mem::word_at(m, ptr + 8 * j) == child(m, ptr as int, slots[j as int]));
                let c = child(v.mem, ptr as int, slots[j as int]);
                if c != 0 {
                    lemma_fwd_bounds(v, c);
                }
            }
            let w = gc.read_word(ptr + 8 * j);
            if w != 0 {
                proof {
                    assert(payload(new_base(gc@), new_cells(gc@)[i]) <= ptr + 8 * j && ptr + 8 * j
                        + 8 <= new_base(gc@) + new_cells(gc@)[i].start + new_cells(gc@)[i].size);
                }
                gc.rewrite_ptr(ptr + 8 * j);
            }
            j += 1;
        }
    }

    fn free_cb(&self, gc: &mut GCAlloc, ptr: usize) {
    }
}

} // verus!
