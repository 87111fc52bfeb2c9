//! The collector: allocation in the active half, the handle table, and the
//! mark, copy and rewrite cycle that moves what is reachable to the other half.

use crate::gc_ptr::{addr_of, Gc};
use crate::bump::{
    alloc_result, alloc_via, allocated, cell_size_for, filled, lemma_allocated, lemma_cursor,
    lemma_filled_moved, lemma_filled_plain, typed_result, typed_via, value_ok, with_header,
};
use crate::cycle::{collected, flipped, lemma_collect_done, started};
use crate::handles::{
    table_entries, table_get, table_insert, table_keys, table_limit, table_new, table_remove,
    table_set, HandleTable,
};
use crate::mem::{copy_bytes, map_anon, mmap_bytes, store_word, word_at};
use crate::marking::{
    lemma_marking_end, lemma_marking_skip, lemma_marking_start, lemma_marking_store,
    lemma_marking_traced, lemma_unmarked_finite, listed, mark_ok, mark_stored, marked_at, marking,
    roots_listed, traced, unmarked, work_is_roots,
};
use crate::model::{
    base_ok, extent, free_tail, geometry_ok, heads_plain, idle_ok, in_payload, index_of,
    is_payload, lemma_payload_bounds, lemma_store_keeps_headers, new_base, new_cells, payload,
    pointers_valid, reachable, slots_ok, Cell, GcView,
};
use crate::copying::{
    copying, lemma_copy_base, lemma_copy_move, lemma_copy_read, lemma_copy_seal, lemma_copy_skip,
    lemma_move_fits, move_stored, packed, seal_stored,
};
use crate::relocating::{
    all_stale, lemma_fwd_bounds, lemma_reloc_kept, lemma_reloc_ready, lemma_reloc_step,
    lemma_store_keeps_reloc, reloc_ok, relocating, rewritten,
};
use crate::vtable::{layout_of, VTable};
use crate::GCHeader;
use crate::{ALIGNMENT, HEADER_SIZE};
use crate::VTPtr;
use core::marker::PhantomData;
use memmap2::MmapMut;
use slotmap::DefaultKey;
use std::collections::VecDeque;
use vstd::prelude::*;

verus! {

/// A key of the handle table: the anchor of one payload of type `T`.
pub struct Handle<T> {
    key: DefaultKey,
    _marker: PhantomData<T>,
}

impl<T> Handle<T> {
    /// The key under which the table holds the payload's address.
    pub closed spec fn key(&self) -> DefaultKey {
        self.key
    }
}

/// Why a collector could not be made.
#[derive(Debug, Clone, Copy, PartialEq, Eq)]
pub enum GcError {
    /// The system did not grant the memory mapping.
    MapFailed,
}

/// A semispace collector over one memory mapping.
pub struct GCAlloc {
    mmap: MmapMut,
    from_half: usize,
    to_half: usize,
    chunk_size: usize,
    from_cursor: usize,
    in_gc: bool,
    work_list: VecDeque<usize>,
    handles: HandleTable,
    gc_count: usize,
    meta_total_allocated: usize,
    meta_high_water_mark: usize,
    cells: Ghost<Seq<Cell>>,
    to_cells: Ghost<Seq<Cell>>,
    fwd: Ghost<Map<int, int>>,
}

/// The collector's counters at one moment.
#[derive(Debug, Default)]
pub struct GCMeta {
    pub currently_allocated: usize,
    pub gc_count: usize,
    pub total_allocated: usize,
    pub high_water_mark: usize,
}

impl View for GCAlloc {
    type V = GcView;

    closed spec fn view(&self) -> GcView {
        GcView {
            mem: mmap_bytes(self.mmap),
            chunk: self.chunk_size as int,
            from: self.from_half as int,
            to: self.to_half as int,
            cursor: self.from_cursor as int,
            in_gc: self.in_gc,
            work: self.work_list@,
            handles: table_entries(self.handles),
            gc_count: self.gc_count as int,
            total_allocated: self.meta_total_allocated as int,
            high_water_mark: self.meta_high_water_mark as int,
            cells: self.cells@,
            to_cells: self.to_cells@,
            fwd: self.fwd@,
        }
    }
}

/// The state of a collector over `chunk` bytes per half in which nothing has
/// been allocated yet.
pub open spec fn is_fresh(v: GcView, chunk: int) -> bool {
    &&& v.chunk == chunk
    &&& v.from == 0
    &&& v.to == chunk
    &&& v.cursor == 0
    &&& !v.in_gc
    &&& v.work.len() == 0
    &&& v.handles == Map::<DefaultKey, usize>::empty()
    &&& v.gc_count == 0
    &&& v.total_allocated == 0
    &&& v.high_water_mark == 0
    &&& v.cells.len() == 0
    &&& v.to_cells.len() == 0
    &&& v.fwd == Map::<int, int>::empty()
}

impl GCAlloc {
    /// The collector is between collections and in order.
    pub open spec fn wf(&self) -> bool {
        idle_ok(self@)
    }

    /// Makes a collector over the mapping `mmap` of twice `sz` bytes: the
    /// first half active, and all of it one free cell.
    pub fn with_mapping(mmap: MmapMut, sz: usize) -> (gc: Self)
        requires
            16 <= sz,
            sz as int % 16 == 0,
            2 * sz <= usize::MAX,
            mmap_bytes(mmap).len() == 2 * sz,
        ensures
            gc.wf(),
            is_fresh(gc@, sz as int),
            gc@.mem == store_word(store_word(mmap_bytes(mmap), 0, 0), 8, sz as int),
    {
        broadcast use crate::mem::group_words;

        let mut mmap = mmap;
        crate::mem::store(&mut mmap, 0, 0);
        crate::mem::store(&mut mmap, 8, sz as u64);
        let gc = GCAlloc {
            mmap,
            from_half: 0,
            to_half: sz,
            chunk_size: sz,
            from_cursor: 0,
            in_gc: false,
            work_list: VecDeque::new(),
            handles: table_new(),
            gc_count: 0,
            meta_total_allocated: 0,
            meta_high_water_mark: 0,
            cells: Ghost(Seq::empty()),
            to_cells: Ghost(Seq::empty()),
            fwd: Ghost(Map::empty()),
        };
        gc
    }

    /// What the outcome `mapped` of asking for a mapping of twice `sz` bytes
    /// makes of the request for a collector: a collector over the mapping
    /// where one was granted, and `GcError::MapFailed` where none was.
    pub fn from_mapped(mapped: Result<MmapMut, std::io::Error>, sz: usize) -> (r: Result<
        Self,
        GcError,
    >)
        requires
            16 <= sz,
            sz as int % 16 == 0,
            2 * sz <= usize::MAX,
            mapped matches Ok(m) ==> mmap_bytes(m).len() == 2 * sz,
        ensures
            match mapped {
                Ok(m) => r matches Ok(gc) && gc.wf() && is_fresh(gc@, sz as int) && gc@.mem
                    == store_word(store_word(mmap_bytes(m), 0, 0), 8, sz as int),
                Err(_) => r matches Err(e) && e == GcError::MapFailed,
            },
    {
        match mapped {
            Ok(mmap) => Ok(Self::with_mapping(mmap, sz)),
            Err(_) => Err(GcError::MapFailed),
        }
    }

    /// Asks the system for a mapping of twice `sz` bytes and makes a
    /// collector over it: two halves of `sz` bytes, the first one active and
    /// all of it one free cell, no handles, and every counter at zero. The
    /// only failure is `GcError::MapFailed`, where no mapping was granted;
    /// none is granted for more than `isize::MAX` bytes, and whether one is
    /// granted for less is the system's decision.
    pub fn new(sz: usize) -> (r: Result<Self, GcError>)
        requires
            16 <= sz,
            sz as int % 16 == 0,
            2 * sz <= usize::MAX,
        ensures
            r matches Ok(gc) ==> gc.wf() && is_fresh(gc@, sz as int) && gc@.mem.len() == 2 * sz,
            r matches Err(e) ==> e == GcError::MapFailed,
            2 * sz > isize::MAX ==> r is Err,
    {
        Self::from_mapped(map_anon(2 * sz), sz)
    }

    /// The counters: bytes that cells take now, collections so far, bytes
    /// ever allocated, and the most bytes that cells ever took.
    pub fn metadata(&self) -> (m: GCMeta)
        ensures
            m.currently_allocated == self@.cursor,
            m.gc_count == self@.gc_count,
            m.total_allocated == self@.total_allocated,
            m.high_water_mark == self@.high_water_mark,
    {
        GCMeta {
            currently_allocated: self.from_cursor,
            gc_count: self.gc_count,
            total_allocated: self.meta_total_allocated,
            high_water_mark: self.meta_high_water_mark,
        }
    }

    /// Whether a collection is under way, as it is inside the callbacks.
    pub fn collecting(&self) -> (b: bool)
        ensures
            b == self@.in_gc,
    {
        self.in_gc
    }

    /// Anchors the payload at `ptr`: it and what it reaches stay through
    /// collections until the handle is released.
    pub fn acquire_handle<T>(&mut self, ptr: Gc<T>) -> (h: Handle<T>)
        requires
            old(self).wf(),
            is_payload(old(self)@.cells, old(self)@.from, ptr.addr() as int),
            old(self)@.handles.dom().len() < table_limit(),
        ensures
            final(self).wf(),
            !old(self)@.handles.contains_key(h.key()),
            final(self)@ == (GcView {
                handles: old(self)@.handles.insert(h.key(), ptr.addr()),
                ..old(self)@
            }),
    {
        let key = table_insert(&mut self.handles, ptr.get());
        proof {
            assert forall|k: DefaultKey| #[trigger]
                self@.handles.contains_key(k) implies is_payload(
                self@.cells,
                self@.from,
                self@.handles[k] as int,
            ) by {
                if k != key {
                    assert(old(self)@.handles.contains_key(k));
                }
            }
        }
        Handle { key, _marker: PhantomData }
    }

    /// The address at which the payload anchored by `handle` is now.
    pub fn get_handle<T>(&self, handle: &Handle<T>) -> (ptr: Gc<T>)
        requires
            self.wf(),
            self@.handles.contains_key(handle.key()),
        ensures
            ptr.addr() == self@.handles[handle.key()],
            is_payload(self@.cells, self@.from, ptr.addr() as int),
    {
        Gc::new(table_get(&self.handles, handle.key).unwrap())
    }

    /// Drops the anchor. The payload stays only while something else reaches
    /// it.
    pub fn release_handle<T>(&mut self, handle: Handle<T>)
        requires
            old(self).wf(),
        ensures
            final(self).wf(),
            final(self)@ == (GcView {
                handles: old(self)@.handles.remove(handle.key()),
                ..old(self)@
            }),
    {
        let _ = table_remove(&mut self.handles, handle.key);
        proof {
            assert forall|k: DefaultKey| #[trigger]
                self@.handles.contains_key(k) implies is_payload(
                self@.cells,
                self@.from,
                self@.handles[k] as int,
            ) by {
                assert(old(self)@.handles.contains_key(k));
            }
        }
    }

    /// Whether `ptr` points into the active half.
    pub fn in_young_gen<T>(&self, ptr: Gc<T>) -> (b: bool)
        requires
            geometry_ok(self@),
        ensures
            b == (self@.from <= ptr.addr() < self@.from + self@.chunk),
    {
        ptr.get() >= self.from_half && ptr.get() < self.from_half + self.chunk_size
    }

    /// The word at `addr`.
    pub fn read_word(&self, addr: usize) -> (w: usize)
        requires
            geometry_ok(self@),
            addr + 8 <= self@.mem.len(),
        ensures
            w == word_at(self@.mem, addr as int) as usize,
    {
        crate::mem::load(&self.mmap, addr) as usize
    }

    /// The header in front of the payload at `ptr`.
    pub fn header_of(&self, ptr: usize) -> (h: GCHeader)
        requires
            geometry_ok(self@),
            16 <= ptr <= self@.mem.len(),
        ensures
            h.word() == word_at(self@.mem, ptr - 16) as usize,
            h.size_spec() == word_at(self@.mem, ptr - 8) as usize,
    {
        let word = crate::mem::load(&self.mmap, ptr - 16) as usize;
        let sz = crate::mem::load(&self.mmap, ptr - 8) as usize;
        GCHeader::new(VTPtr::from_word(word), sz)
    }

    /// Stores the word `w` at `addr`, inside the payload of a cell of the
    /// active half.
    pub fn write_word(&mut self, addr: usize, w: usize)
        requires
            old(self).wf(),
            in_payload(old(self)@.cells, old(self)@.from, addr as int),
        ensures
            final(self).wf(),
            final(self)@ == (GcView {
                mem: store_word(old(self)@.mem, addr as int, w as int),
                ..old(self)@
            }),
    {
        proof {
            let v = self@;
            let k = crate::model::holder_of(v.cells, v.from, addr as int);
            crate::model::lemma_tiles_within(v.cells, k);
        }
        crate::mem::store(&mut self.mmap, addr, w as u64);
        proof {
            broadcast use crate::mem::group_words;

            let v0 = old(self)@;
            let v = self@;
            let k = crate::model::holder_of(v0.cells, v0.from, addr as int);
            crate::model::lemma_tiles_within(v0.cells, k);
            lemma_store_keeps_headers(v0.mem, v0.from, v0.cells, addr as int, w as int);
            assert(base_ok(v));
            assert(crate::model::heads_plain(v.mem, v.from, v.cells));
            assert(crate::model::handles_valid(v));
            assert(crate::model::fwd_ok(v));
        }
    }

    /// Tells the collector that the payload at `ptr` is reachable: its header
    /// joins the work list. For the marking callback.
    pub fn mark_accessible<T>(&mut self, ptr: Gc<T>)
        requires
            ptr.addr() >= 16,
        ensures
            final(self)@ == (GcView {
                work: old(self)@.work.push((ptr.addr() - 16) as usize),
                ..old(self)@
            }),
    {
        self.work_list.push_back(header_from_ptr(ptr.get()));
    }

    /// Puts the header of every root on the work list.
    fn mark_roots(&mut self)
        requires
            mark_ok(old(self)@),
            old(self)@.work.len() == 0,
        ensures
            mark_ok(final(self)@),
            final(self)@ == (GcView { work: final(self)@.work, ..old(self)@ }),
            roots_listed(final(self)@),
            work_is_roots(final(self)@),
    {
        let keys = table_keys(&self.handles);
        let mut i: usize = 0;
        while i < keys.len()
            invariant
                i <= keys.len(),
                mark_ok(self@),
                self@ == (GcView { work: self@.work, ..old(self)@ }),
                work_is_roots(self@),
                forall|k: DefaultKey| keys@.contains(k) <==> self@.handles.contains_key(k),
                forall|m: int|
                    0 <= m < i ==> listed(self@.work, self@.handles[#[trigger] keys@[m]] as int),
            decreases keys.len() - i,
        {
            let key = keys[i];
            assert(keys@.contains(key));
            let addr = table_get(&self.handles, key).unwrap();
            proof {
                let v = self@;
                assert(v.handles.contains_key(key));
                let c = crate::model::index_of(v.cells, v.from, addr as int);
                crate::model::lemma_tiles_within(v.cells, c);
            }
            let ghost before = self@;
            self.work_list.push_back(header_from_ptr(addr));
            proof {
                let v = self@;
                assert(v.work == before.work.push((addr - 16) as usize));
                assert forall|k: int| 0 <= k < v.work.len() implies is_payload(
                    v.cells,
                    v.from,
                    #[trigger] v.work[k] + 16,
                ) by {
                    if k < before.work.len() {
                        assert(v.work[k] == before.work[k]);
                    }
                }
                assert forall|m: int| 0 <= m < i + 1 implies listed(
                    v.work,
                    v.handles[#[trigger] keys@[m]] as int,
                ) by {
                    if m < i {
                        let x = v.handles[keys@[m]] as int;
                        assert(listed(before.work, x));
                        let q = choose|q: int|
                            0 <= q < before.work.len() && #[trigger] before.work[q] + 16 == x;
                        assert(v.work[q] + 16 == x);
                    } else {
                        assert(v.work[v.work.len() - 1] + 16 == addr);
                    }
                }
                assert forall|q: int| 0 <= q < v.work.len() implies exists|k: DefaultKey| #[trigger]
                    v.handles.contains_key(k) && v.handles[k] == #[trigger] v.work[q] + 16 by {
                    if q < before.work.len() {
                        assert(v.work[q] == before.work[q]);
                        let k = choose|k: DefaultKey| #[trigger]
                            before.handles.contains_key(k) && before.handles[k] == before.work[q]
                                + 16;
                        assert(v.handles.contains_key(k) && v.handles[k] == v.work[q] + 16);
                    } else {
                        assert(v.handles.contains_key(key) && v.handles[key] == v.work[q] + 16);
                    }
                }
            }
            i += 1;
        }
        proof {
            let v = self@;
            assert forall|k: DefaultKey| #[trigger] v.handles.contains_key(k) implies listed(
                v.work,
                v.handles[k] as int,
            ) by {
                assert(keys@.contains(k));
                let m = choose|m: int| 0 <= m < keys@.len() && keys@[m] == k;
                assert(listed(v.work, v.handles[keys@[m]] as int));
            }
        }
    }

    /// Marks every cell that the work list leads to: takes header after
    /// header off the list, and has each cell that was not marked yet traced,
    /// which puts the headers of its children on the list.
    fn mark<V: VTable>(&mut self, table: &V)
        requires
            mark_ok(old(self)@),
            heads_plain(old(self)@.mem, old(self)@.from, old(self)@.cells),
            slots_ok(layout_of(table)),
            pointers_valid(old(self)@, layout_of(table)),
            roots_listed(old(self)@),
            work_is_roots(old(self)@),
        ensures
            marking(old(self)@, final(self)@, layout_of(table)),
            final(self)@.work.len() == 0,
            forall|k: int|
                0 <= k < old(self)@.cells.len() ==> (marked_at(
                    final(self)@.mem,
                    #[trigger] payload(old(self)@.from, old(self)@.cells[k]),
                ) <==> reachable(old(self)@, layout_of(table), k)),
    {
        let ghost v0 = self@;
        let ghost l = layout_of(table);
        proof {
            lemma_marking_start(v0, l);
        }
        while self.work_list.len() > 0
            invariant
                marking(v0, self@, l),
                base_ok(v0),
                slots_ok(l),
                pointers_valid(v0, l),
                l == layout_of(table),
            decreases unmarked(self@).len(), self@.work.len(),
        {
            let ghost v = self@;
            let h = self.work_list.pop_front().unwrap();
            let ghost i = index_of(v.cells, v.from, h + 16);
            proof {
                assert(v.work[0] == h);
                assert(is_payload(v.cells, v.from, v.work[0] + 16));
                lemma_payload_bounds(v, h + 16);
                lemma_unmarked_finite(v);
                assert(self@ == (GcView { work: v.work.drop_first(), ..v }));
            }
            let p = ptr_from_header(h);
            let mut hdr = self.header_of(p);
            proof {
                assert(word_at(v.mem, h as int) == crate::model::head_word(
                    v.mem,
                    v.from,
                    v.cells[i],
                ));
            }
            if hdr.mark() {
                proof {
                    lemma_marking_skip(v0, v, l);
                }
                continue ;
            }
            let word = hdr.get_vt().to_word();
            crate::mem::store(&mut self.mmap, h, word as u64);
            proof {
                lemma_marking_store(v0, v, l, i);
                assert(self@ == mark_stored(v, i));
            }
            table.mark_cb(self, p);
            proof {
                lemma_marking_traced(v0, v, l, i);
                assert(self@ == traced(mark_stored(v, i), l, p as int));
                assert(unmarked(self@) =~= unmarked(mark_stored(v, i)));
            }
        }
        proof {
            lemma_marking_end(v0, self@, l);
        }
    }

    /// Copies every marked cell of the active half to the scratch half, in
    /// address order and without gaps, leaves in each old header the address
    /// of the new payload, and has every cell that is not marked destroyed.
    /// A free cell is written behind the copies. Returns where they end.
    fn copy<V: VTable>(&mut self, table: &V) -> (r: (usize, Ghost<Seq<int>>))
        requires
            mark_ok(old(self)@),
        ensures
            copying(old(self)@, final(self)@, old(self)@.cells.len() as int, r.1@),
            packed(old(self)@, final(self)@, old(self)@.cells.len() as int, r.1@),
            r.0 == extent(final(self)@.to_cells),
            r.0 <= old(self)@.cursor,
            free_tail(final(self)@.mem, old(self)@.to, r.0 as int, old(self)@.chunk),
    {
        broadcast use crate::mem::group_words;

        let ghost vm = self@;
        let mut to_cursor: usize = 0;
        let mut from_cursor: usize = 0;
        let ghost mut i: int = 0;
        let ghost mut src: Seq<int> = Seq::empty();
        proof {
            assert(self@ == (GcView { mem: self@.mem, to_cells: self@.to_cells, fwd: self@.fwd, ..vm }));
            assert(crate::copying::from_kept(vm, self@.mem, 0));
            assert(self@.to_cells =~= Seq::<Cell>::empty());
            if vm.cells.len() > 0 {
                assert(vm.cells[0].start == 0);
            }
        }
        while from_cursor < self.chunk_size
            invariant
                mark_ok(vm),
                copying(vm, self@, i, src),
                packed(vm, self@, i, src),
                to_cursor == extent(self@.to_cells),
                (i < vm.cells.len() && from_cursor == vm.cells[i].start) || (i == vm.cells.len() && (
                from_cursor == vm.cursor || from_cursor == vm.chunk)),
                self.chunk_size == vm.chunk,
            decreases self.chunk_size - from_cursor,
        {
            let ghost v = self@;
            proof {
                lemma_copy_read(vm, v, i, src);
                lemma_copy_base(vm, v, i, src);
                if i < vm.cells.len() {
                    lemma_move_fits(vm, v, i, src);
                } else {
                    crate::model::lemma_extent_aligned(vm.cells);
                }
            }
            let from_ptr = self.from_half + from_cursor;
            let hdr = self.header_of(from_ptr + 16);
            let sz = hdr.size();
            if hdr.get_vt().is_free() {
                from_cursor += sz;
                continue ;
            }
            if !hdr.get_vt().is_marked() {
                proof {
                    assert(payload(v.from, v.cells[i]) == from_ptr + 16);
                }
                table.free_cb(self, from_ptr + 16);
                proof {
                    lemma_copy_skip(vm, v, i, src);
                    crate::copying::lemma_packed_skip(vm, v, i, src);
                    crate::copying::lemma_bound(vm, i);
                    i = i + 1;
                }
                from_cursor += sz;
                continue ;
            }
            let to_ptr = self.to_half + to_cursor;
            crate::mem::copy(&mut self.mmap, from_ptr, to_ptr, sz);
            assert(self@.mem.len() == v.mem.len());
            let mut old_hdr = hdr;
            old_hdr.set_fwd_ptr(ptr_from_header(to_ptr));
            crate::mem::store(&mut self.mmap, from_ptr, old_hdr.fwd_ptr() as u64);
            assert(self@.mem.len() == v.mem.len()) by {
                crate::mem::lemma_store_bytes(
                    copy_bytes(v.mem, from_ptr as int, to_ptr as int, sz as int),
                    from_ptr as int,
                    to_ptr + 16,
                );
            }
            let mut to_hdr = hdr;
            to_hdr.unmark();
            crate::mem::store(&mut self.mmap, to_ptr, to_hdr.get_vt().to_word() as u64);
            proof {
                self.to_cells@ = v.to_cells.push(
                    Cell { start: to_cursor as int, size: sz as int, desc: vm.cells[i].desc },
                );
                self.fwd@ = v.fwd.insert(from_ptr + 16, to_ptr + 16);
                assert(self@ == move_stored(vm, v, i));
                lemma_copy_move(vm, v, i, src);
                crate::copying::lemma_packed_move(vm, v, i, src);
                crate::copying::lemma_bound(vm, i);
                src = src.push(i);
                i = i + 1;
            }
            from_cursor += sz;
            to_cursor += sz;
        }
        proof {
            if i < vm.cells.len() {
                crate::model::lemma_tiles_within(vm.cells, i);
            }
            assert(i == vm.cells.len());
        }
        if to_cursor < self.chunk_size {
            let ghost v = self@;
            let free_ptr = self.to_half + to_cursor;
            let free_header = GCHeader::new(VTPtr::new_free(), self.chunk_size - to_cursor);
            crate::mem::store(&mut self.mmap, free_ptr, free_header.get_vt().to_word() as u64);
            crate::mem::store(&mut self.mmap, free_ptr + 8, free_header.size() as u64);
            proof {
                assert(self@ == seal_stored(v));
                lemma_copy_seal(vm, v, src);
                crate::copying::lemma_packed_seal(vm, v, i, src);
            }
        }
        (to_cursor, Ghost(src))
    }

    /// Replaces the managed pointer stored at `slot` by the address that its
    /// target moved to, which the target's old header holds. For the
    /// rewriting callback.
    pub fn rewrite_ptr(&mut self, slot: usize)
        requires
            reloc_ok(old(self)@),
            in_payload(new_cells(old(self)@), new_base(old(self)@), slot as int),
            old(self)@.fwd.contains_key(word_at(old(self)@.mem, slot as int)),
        ensures
            reloc_ok(final(self)@),
            final(self)@ == (GcView {
                mem: store_word(
                    old(self)@.mem,
                    slot as int,
                    old(self)@.fwd[word_at(old(self)@.mem, slot as int)],
                ),
                ..old(self)@
            }),
    {
        proof {
            let v = self@;
            let w = word_at(v.mem, slot as int);
            lemma_fwd_bounds(v, w);
            lemma_store_keeps_reloc(v, slot as int, v.fwd[w]);
        }
        let target = self.read_word(slot);
        let fwd = self.header_of(target).fwd_ptr();
        crate::mem::store(&mut self.mmap, slot, fwd as u64);
    }

    /// Has the managed pointers of every cell of the scratch half rewritten.
    fn rewrite_ptrs<V: VTable>(&mut self, table: &V)
        requires
            reloc_ok(old(self)@),
            old(self)@.in_gc,
            slots_ok(layout_of(table)),
            all_stale(old(self)@, layout_of(table)),
            free_tail(
                old(self)@.mem,
                old(self)@.to,
                extent(old(self)@.to_cells),
                old(self)@.chunk,
            ),
        ensures
            relocating(
                old(self)@,
                final(self)@,
                old(self)@.to_cells.len() as int,
                layout_of(table),
            ),
    {
        let ghost vc = self@;
        let ghost l = layout_of(table);
        let mut cursor: usize = 0;
        let ghost mut r: int = 0;
        proof {
            if vc.to_cells.len() > 0 {
                assert(vc.to_cells[0].start == 0);
            }
        }
        while cursor < self.chunk_size
            invariant
                reloc_ok(vc),
                vc.in_gc,
                slots_ok(l),
                l == layout_of(table),
                all_stale(vc, l),
                free_tail(vc.mem, vc.to, extent(vc.to_cells), vc.chunk),
                relocating(vc, self@, r, l),
                (r < vc.to_cells.len() && cursor == vc.to_cells[r].start) || (r
                    == vc.to_cells.len() && (cursor == extent(vc.to_cells) || cursor
                    == vc.chunk)),
                self.chunk_size == vc.chunk,
            decreases self.chunk_size - cursor,
        {
            let ghost v = self@;
            proof {
                lemma_reloc_kept(vc, v, r, l);
                if r < vc.to_cells.len() {
                    lemma_reloc_ready(vc, v, r, l);
                    crate::model::lemma_tiles_within(vc.to_cells, r);
                    assert(crate::model::head_word(v.mem, vc.to, vc.to_cells[r])
                        == vc.to_cells[r].desc);
                    assert(crate::model::size_word(v.mem, vc.to, vc.to_cells[r])
                        == vc.to_cells[r].size);
                    if r + 1 < vc.to_cells.len() {
                        assert(crate::model::abuts(vc.to_cells, r));
                    }
                } else {
                    crate::model::lemma_extent_aligned(vc.to_cells);
                }
            }
            let ptr = self.to_half + cursor + 16;
            let hdr = self.header_of(ptr);
            let sz = hdr.size();
            if hdr.get_vt().is_free() {
                cursor += sz;
                continue ;
            }
            table.rewrite_cb(self, ptr);
            proof {
                lemma_reloc_step(vc, v, r, l);
                assert(self@ == rewritten(v, l, ptr as int));
                r = r + 1;
            }
            cursor += sz;
        }
        proof {
            if r < vc.to_cells.len() {
                crate::model::lemma_tiles_within(vc.to_cells, r);
            }
        }
    }

    /// Replaces the address that each handle anchors by the address that the
    /// payload moved to.
    fn rewrite_handles(&mut self)
        requires
            reloc_ok(old(self)@),
            forall|key: DefaultKey| #[trigger]
                old(self)@.handles.contains_key(key) ==> old(self)@.fwd.contains_key(
                    old(self)@.handles[key] as int,
                ),
        ensures
            final(self)@ == (GcView { handles: final(self)@.handles, ..old(self)@ }),
            final(self)@.handles.dom() == old(self)@.handles.dom(),
            forall|key: DefaultKey| #[trigger]
                old(self)@.handles.contains_key(key) ==> final(self)@.handles[key] == old(
                    self,
                )@.fwd[old(self)@.handles[key] as int],
    {
        let ghost v = self@;
        let keys = table_keys(&self.handles);
        let mut i: usize = 0;
        while i < keys.len()
            invariant
                i <= keys.len(),
                reloc_ok(v),
                keys@.no_duplicates(),
                forall|k: DefaultKey| keys@.contains(k) <==> v.handles.contains_key(k),
                forall|key: DefaultKey| #[trigger]
                    v.handles.contains_key(key) ==> v.fwd.contains_key(v.handles[key] as int),
                self@ == (GcView { handles: self@.handles, ..v }),
                self@.handles.dom() == v.handles.dom(),
                forall|m: int|
                    0 <= m < i ==> self@.handles[#[trigger] keys@[m]] == v.fwd[v.handles[keys@[m]] as int],
                forall|m: int|
                    i <= m < keys.len() ==> self@.handles[#[trigger] keys@[m]]
                        == v.handles[keys@[m]],
            decreases keys.len() - i,
        {
            let key = keys[i];
            assert(keys@.contains(key));
            let ghost before = self@;
            let ptr = table_get(&self.handles, key).unwrap();
            proof {
                assert(v.handles.contains_key(key));
                lemma_fwd_bounds(v, ptr as int);
            }
            let fwd_ptr = self.header_of(ptr).fwd_ptr();
            table_set(&mut self.handles, key, fwd_ptr);
            proof {
                assert(self@.handles.dom() =~= v.handles.dom());
                assert forall|m: int| 0 <= m < i + 1 implies self@.handles[#[trigger] keys@[m]]
                    == v.fwd[v.handles[keys@[m]] as int] by {
                    if m < i {
                        assert(keys@[m] != keys@[i as int]);
                        assert(before.handles[keys@[m]] == v.fwd[v.handles[keys@[m]] as int]);
                    }
                }
                assert forall|m: int| i + 1 <= m < keys.len() implies self@.handles[#[trigger] keys@[m]]
                    == v.handles[keys@[m]] by {
                    assert(keys@[m] != keys@[i as int]);
                    assert(before.handles[keys@[m]] == v.handles[keys@[m]]);
                }
            }
            i += 1;
        }
        proof {
            assert forall|key: DefaultKey| #[trigger] v.handles.contains_key(key) implies self@.handles[key]
                == v.fwd[v.handles[key] as int] by {
                assert(keys@.contains(key));
                let m = choose|m: int| 0 <= m < keys@.len() && keys@[m] == key;
                assert(self@.handles[keys@[m]] == v.fwd[v.handles[keys@[m]] as int]);
            }
        }
    }

    /// Collects: marks what the handles reach, copies it to the scratch half
    /// in address order and without gaps, has what is left destroyed,
    /// rewrites every managed pointer and every handle to the new addresses,
    /// and makes the scratch half the active one.
    pub fn collect<V: VTable>(&mut self, table: &V)
        requires
            old(self).wf(),
            slots_ok(layout_of(table)),
            pointers_valid(old(self)@, layout_of(table)),
            old(self)@.gc_count < usize::MAX,
        ensures
            collected(old(self)@, final(self)@, layout_of(table)),
    {
        let ghost v0 = self@;
        let ghost l = layout_of(table);
        self.in_gc = true;
        proof {
            self.fwd@ = Map::empty();
            assert(self@ == started(v0, self@.work));
            assert(self@.work =~= Seq::<usize>::empty());
        }
        self.mark_roots();
        let ghost vs = self@;
        proof {
            assert(pointers_valid(vs, l)) by {
                assert forall|i: int, j: int|
                    0 <= i < vs.cells.len() && 0 <= j < crate::model::cell_slots(
                        l,
                        vs.cells[i],
                    ).len() implies {
                    let w = #[trigger] crate::model::child(
                        vs.mem,
                        payload(vs.from, vs.cells[i]),
                        crate::model::cell_slots(l, vs.cells[i])[j],
                    );
                    w == 0 || is_payload(vs.cells, vs.from, w)
                } by {
                    let w = crate::model::child(
                        v0.mem,
                        payload(v0.from, v0.cells[i]),
                        crate::model::cell_slots(l, v0.cells[i])[j],
                    );
                    assert(w == 0 || is_payload(v0.cells, v0.from, w));
                }
            }
        }
        self.mark(table);
        let ghost vm = self@;
        let (alloc_start_size, Ghost(src)) = self.copy(table);
        let ghost vc = self@;
        proof {
            crate::relocating::lemma_copy_done(vs, vm, vc, src, l);
        }
        self.rewrite_ptrs(table);
        let ghost vr = self@;
        proof {
            lemma_reloc_kept(vc, vr, vc.to_cells.len() as int, l);
        }
        self.rewrite_handles();
        let ghost handles = self@.handles;
        let from_half = self.from_half;
        self.from_half = self.to_half;
        self.to_half = from_half;
        self.from_cursor = alloc_start_size;
        self.in_gc = false;
        self.gc_count += 1;
        proof {
            self.cells@ = vr.to_cells;
            self.to_cells@ = Seq::empty();
            assert(self@ == flipped(vr, handles));
            lemma_collect_done(v0, vs, vm, vc, vr, src, handles, l);
        }
    }

    /// Writes the header `hdr` at `at`.
    fn write_header(&mut self, at: usize, hdr: &GCHeader)
        requires
            geometry_ok(old(self)@),
            at + 16 <= old(self)@.mem.len(),
        ensures
            final(self)@ == (GcView {
                mem: with_header(
                    old(self)@.mem,
                    at as int,
                    hdr.word() as int,
                    hdr.size_spec() as int,
                ),
                ..old(self)@
            }),
    {
        broadcast use crate::mem::group_words;

        crate::mem::store(&mut self.mmap, at, hdr.fwd_ptr() as u64);
        crate::mem::store(&mut self.mmap, at + 8, hdr.size() as u64);
    }

    /// Allocates a cell for a payload of `raw_sz` bytes with the descriptor
    /// `vt`, and returns the payload's address. Where the active half has no
    /// room for the cell, collects first; where it has none after that
    /// either, or a collection is under way, returns `None`. The payload's
    /// bytes are whatever the memory held.
    pub fn allocate<V: VTable>(&mut self, table: &V, vt: usize, raw_sz: usize) -> (r: Option<
        Gc<u8>,
    >)
        requires
            vt != 0,
            vt as int % 2 == 0,
            !old(self)@.in_gc ==> {
                &&& old(self).wf()
                &&& slots_ok(layout_of(table))
                &&& pointers_valid(old(self)@, layout_of(table))
                &&& old(self)@.gc_count < usize::MAX
                &&& cell_size_for(raw_sz as int) <= old(self)@.chunk
                    ==> old(self)@.total_allocated + cell_size_for(raw_sz as int) <= usize::MAX
            },
        ensures
            old(self)@.in_gc ==> r.is_none() && final(self)@ == old(self)@,
            !old(self)@.in_gc ==> final(self).wf() && alloc_result(
                old(self)@,
                final(self)@,
                addr_of(r),
                vt,
                cell_size_for(raw_sz as int),
                layout_of(table),
            ),
            r matches Some(p) ==> is_payload(final(self)@.cells, final(self)@.from, p.addr() as int),
            r matches Some(p) ==> index_of(final(self)@.cells, final(self)@.from, p.addr() as int)
                == final(self)@.cells.len() - 1,
            r.is_some() ==> forall|i: int|
                0 <= i < final(self)@.cells.len() - 1 ==> #[trigger] crate::model::settled(
                    final(self)@,
                    layout_of(table),
                    i,
                ),
            r.is_none() && !old(self)@.in_gc ==> pointers_valid(final(self)@, layout_of(table)),
    {
        if self.in_gc {
            return None;
        }
        let ghost v0 = self@;
        let ghost l = layout_of(table);
        let ghost need = cell_size_for(raw_sz as int);
        proof {
            lemma_cursor(v0);
        }
        if raw_sz > usize::MAX - 31 {
            self.collect(table);
            proof {
                assert(alloc_via(v0, self@, self@, None, vt, need, l));
            }
            return None;
        }
        let sz = (HEADER_SIZE + raw_sz + (ALIGNMENT - 1)) / ALIGNMENT * ALIGNMENT;
        let available = self.chunk_size - self.from_cursor;
        if sz > available {
            self.collect(table);
            proof {
                lemma_cursor(self@);
            }
            let available = self.chunk_size - self.from_cursor;
            if sz > available {
                proof {
                    assert(alloc_via(v0, self@, self@, None, vt, need, l));
                }
                return None;
            }
        }
        let ghost mid = self@;
        proof {
            lemma_cursor(mid);
            lemma_allocated(mid, vt, need);
        }
        let available = self.chunk_size - self.from_cursor;
        let start_ptr = self.from_half + self.from_cursor;
        let header = GCHeader::new(VTPtr::new(vt), sz);
        self.write_header(start_ptr, &header);
        self.from_cursor += sz;
        self.meta_total_allocated += sz;
        if self.meta_high_water_mark < self.from_cursor {
            self.meta_high_water_mark = self.from_cursor;
        }
        let ptr = ptr_from_header(start_ptr);
        if available - sz > 0 {
            proof {
                crate::bump::lemma_with_header(mid.mem, start_ptr as int, vt as int, need);
            }
            let free_header = GCHeader::new(VTPtr::new_free(), available - sz);
            self.write_header(start_ptr + sz, &free_header);
        }
        proof {
            self.cells@ = mid.cells.push(Cell { start: mid.cursor, size: need, desc: vt });
            assert(self@ == allocated(mid, vt, need));
            assert(alloc_via(v0, mid, self@, Some(ptr as int), vt, need, l));
            assert(payload(self@.from, self@.cells[mid.cells.len() as int]) == ptr);
            crate::model::lemma_index_of(self@.cells, self@.from, mid.cells.len() as int);
            assert forall|i: int| 0 <= i < self@.cells.len() - 1 implies #[trigger] crate::model::settled(
                self@,
                l,
                i,
            ) by {
                crate::bump::lemma_allocated_settled(mid, vt, need, l, i);
            }
        }
        Some(Gc::new(ptr))
    }

    /// Allocates a cell for the payload `v` with the descriptor `vt`, as
    /// `allocate` does, and writes `v` to it. Where the allocation made a
    /// collection run, the managed pointers in `v` are from before it: the
    /// payload's rewriting callback then replaces each by the address that
    /// its target moved to.
    pub fn allocate_typed<V: VTable, T>(&mut self, table: &V, vt: usize, v: &[u8]) -> (r: Option<
        Gc<T>,
    >)
        requires
            vt != 0,
            vt as int % 2 == 0,
            !old(self)@.in_gc ==> {
                &&& old(self).wf()
                &&& slots_ok(layout_of(table))
                &&& pointers_valid(old(self)@, layout_of(table))
                &&& value_ok(old(self)@, layout_of(table), vt, v@)
                &&& old(self)@.gc_count < usize::MAX
                &&& cell_size_for(v@.len() as int) <= old(self)@.chunk
                    ==> old(self)@.total_allocated + cell_size_for(v@.len() as int) <= usize::MAX
            },
        ensures
            old(self)@.in_gc ==> r.is_none() && final(self)@ == old(self)@,
            !old(self)@.in_gc ==> {
                &&& final(self).wf()
                &&& pointers_valid(final(self)@, layout_of(table))
                &&& typed_result(old(self)@, final(self)@, addr_of(r), vt, v@, layout_of(table))
            },
            r matches Some(p) ==> is_payload(final(self)@.cells, final(self)@.from, p.addr() as int),
    {
        let ghost v0 = self@;
        let ghost l = layout_of(table);
        let ghost need = cell_size_for(v@.len() as int);
        let init_gc_cnt = self.gc_count;
        let ptr = match self.allocate(table, vt, v.len()) {
            Some(ptr) => ptr,
            None => {
                proof {
                    if !v0.in_gc {
                        let mid = choose|mid: GcView| #[trigger]
                            alloc_via(v0, mid, self@, None, vt, need, l);
                        assert(typed_via(v0, mid, self@, self@, None, vt, v@, l));
                    }
                }
                return None;
            },
        };
        let ghost va = self@;
        let ghost mid = choose|mid: GcView| #[trigger]
            alloc_via(v0, mid, va, Some(ptr.addr() as int), vt, need, l);
        proof {
            lemma_cursor(mid);
            lemma_filled_plain(v0, mid, vt, v@, l);
        }
        let ptr: Gc<T> = ptr.cast();
        crate::mem::write_all(&mut self.mmap, ptr.get(), v);
        proof {
            assert(self@ == filled(va, ptr.addr() as int, v@, false, l, vt));
        }
        // A collection may have run during the allocation: the pointers in
        // the value are then stale.
        if self.gc_count != init_gc_cnt {
            proof {
                lemma_filled_moved(v0, mid, vt, v@, l);
            }
            table.rewrite_cb(self, ptr.get());
        }
        proof {
            assert(typed_via(v0, mid, va, self@, Some(ptr.addr() as int), vt, v@, l));
        }
        Some(ptr)
    }
}

/// The address of the header in front of the payload at `ptr`.
pub fn header_from_ptr(ptr: usize) -> (h: usize)
    requires
        ptr >= 16,
    ensures
        h == ptr - 16,
{
    ptr - 16
}

/// The address of the payload behind the header at `header`.
pub fn ptr_from_header(header: usize) -> (p: usize)
    requires
        header + 16 <= usize::MAX,
    ensures
        p == header + 16,
{
    header + 16
}

} // verus!
