//! What one collection does to the collector's state.

use crate::mem::{lemma_word_moved, word_at};
use crate::marking::{head_byte, marked_at, marking};
use crate::model::{
    base_ok, cell_slots, child, edge, extent, free_tail, idle_ok, index_of, is_payload, is_root,
    lemma_index_of, lemma_tiles_ordered, lemma_tiles_within, payload, pointers_valid, reach_in,
    reachable, slots_ok, Cell, GcView, Layout,
};
use crate::copying::{copy_of, copying, lemma_copied, marked_bytes, packed};
use crate::relocating::{
    cell_rewritten, forwarded, lemma_copy_done, lemma_reloc_done, lemma_reloc_kept, relocating,
    slot_byte,
};
use slotmap::DefaultKey;
use vstd::prelude::*;

verus! {

/// The bytes that the reachable cells among the first `i` take.
pub open spec fn live_before(v0: GcView, t: Layout, i: int) -> int
    decreases i,
{
    if i <= 0 {
        0
    } else {
        live_before(v0, t, i - 1) + if reachable(v0, t, i - 1) {
            v0.cells[i - 1].size
        } else {
            0
        }
    }
}

/// The reachable cell `k` of `v0` is in `v1` where the reachable cells before
/// it end, with its size and descriptor; its managed pointers point to where
/// their targets moved, and every other byte of its payload is as it was.
pub open spec fn kept(v0: GcView, v1: GcView, t: Layout, k: int) -> bool {
    let c = v0.cells[k];
    let p_old = payload(v0.from, c);
    let p_new = v1.fwd[p_old];
    let slots = cell_slots(t, c);
    &&& p_new == v1.from + live_before(v0, t, k) + 16
    &&& is_payload(v1.cells, v1.from, p_new)
    &&& v1.cells[index_of(v1.cells, v1.from, p_new)] == (Cell {
        start: live_before(v0, t, k),
        size: c.size,
        desc: c.desc,
    })
    &&& forall|j: int|
        0 <= j < slots.len() ==> #[trigger] child(v1.mem, p_new, slots[j]) == forwarded(
            v1.fwd,
            child(v0.mem, p_old, slots[j]),
        )
    &&& forall|x: int|
        p_new <= x < p_new + c.size - 16 && !slot_byte(p_new, slots, slots.len() as int, x)
            ==> #[trigger] v1.mem[x] == v0.mem[x - p_new + p_old]
}

/// Cell `r` of `v1` is where cell `k` of `v0` moved to.
pub open spec fn image_of(v0: GcView, v1: GcView, k: int, r: int) -> bool {
    v1.fwd[payload(v0.from, v0.cells[k])] == payload(v1.from, v1.cells[r])
}

/// Cell `r` of `v1` is where a reachable cell of `v0` moved to.
pub open spec fn has_source(v0: GcView, v1: GcView, t: Layout, r: int) -> bool {
    exists|k: int|
        0 <= k < v0.cells.len() && reachable(v0, t, k) && #[trigger] image_of(v0, v1, k, r)
}

/// The state `v1` is what a collection makes of the state `v0`: the halves
/// have changed roles; exactly the cells that the handles reach are kept, in
/// their order and without gaps, and every handle and managed pointer points
/// to where its target moved.
pub open spec fn collected(v0: GcView, v1: GcView, t: Layout) -> bool {
    &&& idle_ok(v1)
    &&& pointers_valid(v1, t)
    &&& v1.chunk == v0.chunk
    &&& v1.from == v0.to
    &&& v1.to == v0.from
    &&& v1.gc_count == v0.gc_count + 1
    &&& v1.total_allocated == v0.total_allocated
    &&& v1.high_water_mark == v0.high_water_mark
    &&& v1.handles.dom() == v0.handles.dom()
    &&& forall|key: DefaultKey| #[trigger]
        v0.handles.contains_key(key) ==> v1.fwd.contains_key(v0.handles[key] as int)
            && v1.handles[key] == v1.fwd[v0.handles[key] as int]
    &&& forall|k: int|
        0 <= k < v0.cells.len() ==> (v1.fwd.contains_key(#[trigger] payload(v0.from, v0.cells[k]))
            <==> reachable(v0, t, k))
    &&& forall|a: int| #[trigger] v1.fwd.contains_key(a) ==> is_payload(v0.cells, v0.from, a)
    &&& v1.cursor == live_before(v0, t, v0.cells.len() as int)
    &&& forall|k: int|
        0 <= k < v0.cells.len() && reachable(v0, t, k) ==> #[trigger] kept(v0, v1, t, k)
    &&& forall|r: int| 0 <= r < v1.cells.len() ==> #[trigger] has_source(v0, v1, t, r)
}

/// The state in which a collection that starts in `v0` begins to mark, with
/// `work` on its work list.
pub open spec fn started(v0: GcView, work: Seq<usize>) -> GcView {
    GcView { in_gc: true, fwd: Map::empty(), work: work, ..v0 }
}

/// What is reachable is the same in two states with the same cells, memory
/// and handles.
pub(crate) proof fn lemma_reach_same(va: GcView, vb: GcView, t: Layout, k: int, n: nat)
    requires
        va.cells == vb.cells,
        va.from == vb.from,
        va.mem == vb.mem,
        va.handles == vb.handles,
        reach_in(va, t, k, n),
    ensures
        reach_in(vb, t, k, n),
    decreases n,
{
    if is_root(va, k) {
        let key = choose|key: DefaultKey| #[trigger]
            va.handles.contains_key(key) && va.handles[key] == payload(va.from, va.cells[k]);
        assert(vb.handles.contains_key(key));
        assert(is_root(vb, k));
    } else {
        let i = choose|i: int|
            0 <= i < va.cells.len() && reach_in(va, t, i, (n - 1) as nat) && #[trigger] edge(
                va,
                t,
                i,
                k,
            );
        lemma_reach_same(va, vb, t, i, (n - 1) as nat);
        let j = choose|j: int|
            0 <= j < cell_slots(t, va.cells[i]).len() && #[trigger] child(
                va.mem,
                payload(va.from, va.cells[i]),
                cell_slots(t, va.cells[i])[j],
            ) == payload(va.from, va.cells[k]);
        assert(child(vb.mem, payload(vb.from, vb.cells[i]), cell_slots(t, vb.cells[i])[j])
            == payload(vb.from, vb.cells[k]));
        assert(edge(vb, t, i, k));
    }
}

/// What is reachable is the same in two states with the same cells, memory
/// and handles.
pub proof fn lemma_reachable_same(va: GcView, vb: GcView, t: Layout, k: int)
    requires
        va.cells == vb.cells,
        va.from == vb.from,
        va.mem == vb.mem,
        va.handles == vb.handles,
    ensures
        reachable(va, t, k) == reachable(vb, t, k),
{
    if reachable(va, t, k) {
        let n = choose|n: nat| reach_in(va, t, k, n);
        lemma_reach_same(va, vb, t, k, n);
    }
    if reachable(vb, t, k) {
        let n = choose|n: nat| reach_in(vb, t, k, n);
        lemma_reach_same(vb, va, t, k, n);
    }
}

/// The state after the halves changed roles: what was copied is the active
/// half's content, the handles are `handles`, and one more collection is
/// counted.
pub open spec fn flipped(vr: GcView, handles: Map<DefaultKey, usize>) -> GcView {
    GcView {
        handles: handles,
        from: vr.to,
        to: vr.from,
        cursor: extent(vr.to_cells),
        in_gc: false,
        gc_count: vr.gc_count + 1,
        cells: vr.to_cells,
        to_cells: Seq::empty(),
        ..vr
    }
}

/// Marking, copying, rewriting and changing the halves' roles make a
/// collection.
pub(crate) proof fn lemma_collect_done(
    v0: GcView,
    vs: GcView,
    vm: GcView,
    vc: GcView,
    vr: GcView,
    src: Seq<int>,
    handles: Map<DefaultKey, usize>,
    t: Layout,
)
    requires
        idle_ok(v0),
        slots_ok(t),
        pointers_valid(v0, t),
        vs == started(v0, vs.work),
        marking(vs, vm, t),
        vm.work.len() == 0,
        forall|k: int|
            0 <= k < vs.cells.len() ==> (marked_at(vm.mem, #[trigger] payload(vs.from, vs.cells[k]))
                <==> reachable(vs, t, k)),
        copying(vm, vc, vm.cells.len() as int, src),
        packed(vm, vc, vm.cells.len() as int, src),
        free_tail(vc.mem, vc.to, extent(vc.to_cells), vc.chunk),
        relocating(vc, vr, vc.to_cells.len() as int, t),
        handles.dom() == vr.handles.dom(),
        forall|key: DefaultKey| #[trigger]
            vr.handles.contains_key(key) ==> handles[key] == vr.fwd[vr.handles[key] as int],
    ensures
        collected(v0, flipped(vr, handles), t),
{
    let v1 = flipped(vr, handles);
    assert(base_ok(vs));
    assert(pointers_valid(vs, t)) by {
        assert forall|i: int, j: int|
            0 <= i < vs.cells.len() && 0 <= j < cell_slots(t, vs.cells[i]).len() implies {
            let w = #[trigger] child(
                vs.mem,
                payload(vs.from, vs.cells[i]),
                cell_slots(t, vs.cells[i])[j],
            );
            w == 0 || is_payload(vs.cells, vs.from, w)
        } by {
            let w = child(v0.mem, payload(v0.from, v0.cells[i]), cell_slots(t, v0.cells[i])[j]);
            assert(w == 0 || is_payload(v0.cells, v0.from, w));
        }
    }
    lemma_copy_done(vs, vm, vc, src, t);
    lemma_reloc_kept(vc, vr, vc.to_cells.len() as int, t);
    lemma_reloc_done(vc, vr, t);
    assert(extent(vc.to_cells) <= vm.cursor);
    // The new active half is in order.
    assert(base_ok(v1));
    assert forall|key: DefaultKey| #[trigger] v1.handles.contains_key(key) implies is_payload(
        v1.cells,
        v1.from,
        v1.handles[key] as int,
    ) by {
        assert(vr.handles.contains_key(key));
        assert(vc.handles.contains_key(key));
        assert(vr.fwd.contains_key(vr.handles[key] as int));
    }
    assert(crate::model::fwd_ok(v1)) by {
        assert forall|a: int| #[trigger] v1.fwd.contains_key(a) implies {
            &&& crate::model::old_base(v1) + 16 <= a <= crate::model::old_base(v1) + v1.chunk
            &&& crate::mem::word_at(v1.mem, a - 16) == v1.fwd[a]
            &&& is_payload(crate::model::new_cells(v1), crate::model::new_base(v1), v1.fwd[a])
        } by {
            assert(vr.fwd.contains_key(a));
        }
    }
    assert(idle_ok(v1));
    assert(pointers_valid(v1, t));
    assert forall|key: DefaultKey| #[trigger] v0.handles.contains_key(key) implies v1.fwd.contains_key(
        v0.handles[key] as int,
    ) && v1.handles[key] == v1.fwd[v0.handles[key] as int] by {
        assert(vc.handles.contains_key(key));
        assert(vr.handles.contains_key(key));
    }
    assert forall|k: int| 0 <= k < v0.cells.len() implies (v1.fwd.contains_key(
        #[trigger] payload(v0.from, v0.cells[k]),
    ) <==> reachable(v0, t, k)) by {
        lemma_reachable_same(v0, vs, t, k);
        assert(vc.fwd.contains_key(payload(vm.from, vm.cells[k])) <==> marked_at(
            vm.mem,
            payload(vm.from, vm.cells[k]),
        ));
        assert(marked_at(vm.mem, payload(vs.from, vs.cells[k])) <==> reachable(vs, t, k));
    }
    lemma_live_is_marked(v0, vs, vm, t, v0.cells.len() as int);
    assert forall|k: int| 0 <= k < v0.cells.len() && reachable(v0, t, k) implies #[trigger] kept(
        v0,
        v1,
        t,
        k,
    ) by {
        lemma_kept(v0, vs, vm, vc, vr, src, handles, t, k);
    }
    assert forall|r: int| 0 <= r < v1.cells.len() implies #[trigger] has_source(v0, v1, t, r) by {
        let k = src[r];
        assert(0 <= src[r] && copy_of(vm, vc, src[r], r));
        assert(marked_at(vm.mem, payload(vs.from, vs.cells[k])) <==> reachable(vs, t, k));
        lemma_reachable_same(v0, vs, t, k);
        assert(image_of(v0, v1, k, r));
    }
}

/// The bytes of the marked cells are the bytes of the reachable cells.
pub(crate) proof fn lemma_live_is_marked(v0: GcView, vs: GcView, vm: GcView, t: Layout, i: int)
    requires
        vs == started(v0, vs.work),
        vm.cells == vs.cells,
        vm.from == vs.from,
        0 <= i <= vs.cells.len(),
        forall|k: int|
            0 <= k < vs.cells.len() ==> (marked_at(vm.mem, #[trigger] payload(vs.from, vs.cells[k]))
                <==> reachable(vs, t, k)),
    ensures
        forall|k: int| 0 <= k <= i ==> #[trigger] marked_bytes(vm, k) == live_before(v0, t, k),
    decreases i,
{
    if i > 0 {
        lemma_live_is_marked(v0, vs, vm, t, i - 1);
        lemma_reachable_same(v0, vs, t, i - 1);
        assert(marked_at(vm.mem, payload(vs.from, vs.cells[i - 1])) <==> reachable(vs, t, i - 1));
        assert(marked_bytes(vm, i - 1) == live_before(v0, t, i - 1));
        assert(vm.cells[i - 1] == v0.cells[i - 1]);
    }
    assert(marked_bytes(vm, i) == live_before(v0, t, i));
}

/// A byte of a payload is no byte of a header.
pub(crate) proof fn lemma_payload_byte_no_head(cells: Seq<Cell>, base: int, k: int, x: int)
    requires
        crate::model::tiles(cells),
        0 <= k < cells.len(),
        payload(base, cells[k]) <= x < base + cells[k].start + cells[k].size,
    ensures
        !head_byte(cells, base, x),
{
    if head_byte(cells, base, x) {
        let i = choose|i: int|
            0 <= i < cells.len() && base + (#[trigger] cells[i]).start <= x < base + cells[i].start
                + 8;
        lemma_tiles_within(cells, i);
        lemma_tiles_within(cells, k);
        if i < k {
            lemma_tiles_ordered(cells, i, k);
        } else if k < i {
            lemma_tiles_ordered(cells, k, i);
        }
    }
}

/// A reachable cell is kept: its copy lies where the reachable cells before
/// it end, and holds what the cell held, with its pointers forwarded.
pub(crate) proof fn lemma_kept(
    v0: GcView,
    vs: GcView,
    vm: GcView,
    vc: GcView,
    vr: GcView,
    src: Seq<int>,
    handles: Map<DefaultKey, usize>,
    t: Layout,
    k: int,
)
    requires
        idle_ok(v0),
        slots_ok(t),
        pointers_valid(v0, t),
        vs == started(v0, vs.work),
        marking(vs, vm, t),
        vm.work.len() == 0,
        forall|k: int|
            0 <= k < vs.cells.len() ==> (marked_at(vm.mem, #[trigger] payload(vs.from, vs.cells[k]))
                <==> reachable(vs, t, k)),
        copying(vm, vc, vm.cells.len() as int, src),
        packed(vm, vc, vm.cells.len() as int, src),
        relocating(vc, vr, vc.to_cells.len() as int, t),
        forall|i: int|
            0 <= i <= v0.cells.len() ==> #[trigger] marked_bytes(vm, i) == live_before(v0, t, i),
        0 <= k < v0.cells.len(),
        reachable(v0, t, k),
    ensures
        kept(v0, flipped(vr, handles), t, k),
{
    let v1 = flipped(vr, handles);
    lemma_reachable_same(v0, vs, t, k);
    assert(marked_at(vm.mem, payload(vs.from, vs.cells[k])) <==> reachable(vs, t, k));
    let r = lemma_copied(vm, vc, src, k);
    let c = v0.cells[k];
    let d = vc.to_cells[r];
    let p_old = payload(v0.from, c);
    let p_new = v1.fwd[p_old];
    let slots = cell_slots(t, c);
    assert(p_new == payload(vc.to, d));
    assert(d.start == marked_bytes(vm, src[r]));
    assert(marked_bytes(vm, k) == live_before(v0, t, k));
    lemma_index_of(v1.cells, v1.from, r);
    assert(cell_rewritten(vc, vr, t, r));
    assert(cell_slots(t, d) == slots);
    lemma_tiles_within(v0.cells, k);
    lemma_tiles_within(vc.to_cells, r);
    // What copying left in the copy is what the cell held when the collection began.
    assert forall|x: int| p_new <= x < p_new + c.size - 16 implies vc.mem[x] == v0.mem[x - p_new + p_old] by {
        assert(vc.mem[x] == vm.mem[x - payload(vc.to, d) + payload(vm.from, vm.cells[k])]);
        lemma_payload_byte_no_head(v0.cells, v0.from, k, x - p_new + p_old);
        assert(vm.mem[x - p_new + p_old] == vs.mem[x - p_new + p_old]);
    }
    assert forall|j: int| 0 <= j < slots.len() implies #[trigger] child(v1.mem, p_new, slots[j])
        == forwarded(v1.fwd, child(v0.mem, p_old, slots[j])) by {
        assert(0 <= slots[j] && 8 * slots[j] + 8 <= c.size - 16);
        let a = p_new + 8 * slots[j];
        let b = p_old + 8 * slots[j];
        assert forall|x: int| a <= x < a + 8 implies #[trigger] vc.mem[x] == v0.mem[x - a + b] by {
            assert(vc.mem[x] == v0.mem[x - p_new + p_old]);
        }
        lemma_word_moved(vc.mem, a, v0.mem, b);
        assert(child(vr.mem, p_new, slots[j]) == forwarded(vc.fwd, child(vc.mem, p_new, slots[j])));
    }
    assert forall|x: int|
        p_new <= x < p_new + c.size - 16 && !slot_byte(
            p_new,
            slots,
            slots.len() as int,
            x,
        ) implies #[trigger] v1.mem[x] == v0.mem[x - p_new + p_old] by {
        assert(vr.mem[x] == vc.mem[x]);
        assert(vc.mem[x] == v0.mem[x - p_new + p_old]);
    }
}

} // verus!
