//! What an allocation does to the collector's state.

use crate::mem::{lemma_word_agree, lemma_word_moved, store_word, with_bytes, word_at, word_limit};
use crate::model::{
    base_ok, cell_slots, child, head_word, idle_ok, index_of, is_payload, lemma_index_of,
    lemma_tiles_ordered, lemma_tiles_push, lemma_tiles_within, payload, pointers_valid, reachable,
    size_word, slots_ok, Cell, GcView, Layout,
};
use crate::relocating::{forwarded, lemma_relocated, relocated, slot_byte, slots_fit};
use vstd::prelude::*;

verus! {

/// The size of the cell that a payload of `raw` bytes takes: header and
/// payload, rounded up to a multiple of 16.
pub open spec fn cell_size_for(raw: int) -> int {
    (16 + raw + 15) / 16 * 16
}

/// The memory after a header with first word `word` and size `size` was
/// written at `at`.
pub open spec fn with_header(mem: Seq<u8>, at: int, word: int, size: int) -> Seq<u8> {
    store_word(store_word(mem, at, word), at + 8, size)
}

/// The state after a cell of `need` bytes with descriptor `vt` was put at the
/// cursor of `v`, and a free cell behind it where room is left.
pub open spec fn allocated(v: GcView, vt: usize, need: int) -> GcView {
    let at = v.from + v.cursor;
    let end = v.cursor + need;
    let mem1 = with_header(v.mem, at, vt as int, need);
    GcView {
        mem: if end < v.chunk {
            with_header(mem1, v.from + end, 0, v.chunk - end)
        } else {
            mem1
        },
        cursor: end,
        cells: v.cells.push(Cell { start: v.cursor, size: need, desc: vt }),
        total_allocated: v.total_allocated + need,
        high_water_mark: if v.high_water_mark < end {
            end
        } else {
            v.high_water_mark
        },
        ..v
    }
}

/// What writing a header changes and what it leaves.
pub proof fn lemma_with_header(mem: Seq<u8>, at: int, word: int, size: int)
    requires
        0 <= at,
        at + 16 <= mem.len(),
        0 <= word < word_limit(),
        0 <= size < word_limit(),
    ensures
        with_header(mem, at, word, size).len() == mem.len(),
        word_at(with_header(mem, at, word, size), at) == word,
        word_at(with_header(mem, at, word, size), at + 8) == size,
        forall|x: int|
            0 <= x < mem.len() && !(at <= x < at + 16) ==> #[trigger] with_header(
                mem,
                at,
                word,
                size,
            )[x] == mem[x],
{
    broadcast use crate::mem::group_words;

    let m1 = store_word(mem, at, word);
    let m2 = store_word(m1, at + 8, size);
    assert forall|x: int| 0 <= x < mem.len() && !(at <= x < at + 16) implies #[trigger] m2[x]
        == mem[x] by {
        assert(m2[x] == m1[x]);
    }
}

/// The cells of an idle state end at the cursor, a multiple of 16 inside the
/// half.
pub proof fn lemma_cursor(v: GcView)
    requires
        base_ok(v),
    ensures
        0 <= v.cursor <= v.chunk,
        v.cursor % 16 == 0,
        0 <= v.from,
        v.from + v.chunk <= v.mem.len(),
{
    crate::model::lemma_extent_aligned(v.cells);
}

/// An allocation that fits leaves the collector in order, and every cell that
/// was there as it was.
pub(crate) proof fn lemma_allocated(v: GcView, vt: usize, need: int)
    requires
        idle_ok(v),
        vt != 0,
        vt as int % 2 == 0,
        16 <= need,
        need % 16 == 0,
        need <= v.chunk - v.cursor,
    ensures
        idle_ok(allocated(v, vt, need)),
        allocated(v, vt, need).mem.len() == v.mem.len(),
        forall|x: int|
            0 <= x < v.mem.len() && !(v.from + v.cursor <= x < v.from + v.cursor + 16) && !(v.from
                + v.cursor + need <= x < v.from + v.cursor + need + 16) ==> #[trigger] allocated(
                v,
                vt,
                need,
            ).mem[x] == v.mem[x],
        is_payload(allocated(v, vt, need).cells, v.from, v.from + v.cursor + 16),
        forall|p: int|
            is_payload(v.cells, v.from, p) ==> is_payload(allocated(v, vt, need).cells, v.from, p),
{
    let v1 = allocated(v, vt, need);
    let at = v.from + v.cursor;
    let end = v.cursor + need;
    let c = Cell { start: v.cursor, size: need, desc: vt };
    lemma_cursor(v);
    lemma_with_header(v.mem, at, vt as int, need);
    let mem1 = with_header(v.mem, at, vt as int, need);
    if end < v.chunk {
        lemma_with_header(mem1, v.from + end, 0, v.chunk - end);
    }
    assert forall|x: int|
        0 <= x < v.mem.len() && !(at <= x < at + 16) && !(v.from + end <= x < v.from + end + 16)
        implies #[trigger] v1.mem[x] == v.mem[x] by {
        assert(mem1[x] == v.mem[x]);
    }
    lemma_tiles_push(v.cells, c);
    assert forall|k: int| 0 <= k < v1.cells.len() implies size_word(
        v1.mem,
        v1.from,
        #[trigger] v1.cells[k],
    ) == v1.cells[k].size && head_word(v1.mem, v1.from, v1.cells[k]) == v1.cells[k].desc by {
        if k < v.cells.len() {
            assert(v1.cells[k] == v.cells[k]);
            lemma_tiles_within(v.cells, k);
            let a = v.from + v.cells[k].start;
            assert forall|x: int| a <= x < a + 16 implies v1.mem[x] == v.mem[x] by {}
            crate::mem::lemma_word_agree(v1.mem, v.mem, a);
            crate::mem::lemma_word_agree(v1.mem, v.mem, a + 8);
            assert(head_word(v.mem, v.from, v.cells[k]) == v.cells[k].desc);
            assert(size_word(v.mem, v.from, v.cells[k]) == v.cells[k].size);
        } else {
            assert(v1.cells[k] == c);
            assert forall|x: int| at <= x < at + 16 implies v1.mem[x] == mem1[x] by {}
            crate::mem::lemma_word_agree(v1.mem, mem1, at);
            crate::mem::lemma_word_agree(v1.mem, mem1, at + 8);
        }
    }
    assert forall|p: int| is_payload(v.cells, v.from, p) implies is_payload(
        v1.cells,
        v.from,
        p,
    ) by {
        let k = crate::model::index_of(v.cells, v.from, p);
        assert(payload(v.from, v1.cells[k]) == p);
    }
    assert(payload(v.from, v1.cells[v.cells.len() as int]) == at + 16);
    assert forall|a: int| #[trigger] v1.fwd.contains_key(a) implies {
        &&& crate::model::old_base(v1) + 16 <= a <= crate::model::old_base(v1) + v1.chunk
        &&& word_at(v1.mem, a - 16) == v1.fwd[a]
        &&& is_payload(crate::model::new_cells(v1), crate::model::new_base(v1), v1.fwd[a])
    } by {
        assert(v.fwd.contains_key(a));
        assert forall|x: int| a - 16 <= x < a - 8 implies v1.mem[x] == v.mem[x] by {}
        crate::mem::lemma_word_agree(v1.mem, v.mem, a - 16);
    }
    assert forall|key: slotmap::DefaultKey| #[trigger]
        v1.handles.contains_key(key) implies is_payload(
        v1.cells,
        v1.from,
        v1.handles[key] as int,
    ) by {
        assert(v.handles.contains_key(key));
    }
}


/// The request goes from `v0` through `mid` to `v1`: `mid` is `v0` where the
/// cell fits at once and what a collection makes of `v0` where it does not;
/// `v1` is `mid` with the cell at `at` where it fits then, and `mid` itself,
/// with no address, where it still does not.
pub open spec fn alloc_via(
    v0: GcView,
    mid: GcView,
    v1: GcView,
    at: Option<int>,
    vt: usize,
    need: int,
    t: Layout,
) -> bool {
    &&& if need <= v0.chunk - v0.cursor {
        mid == v0
    } else {
        crate::cycle::collected(v0, mid, t)
    }
    &&& if need <= mid.chunk - mid.cursor {
        at == Some(mid.from + mid.cursor + 16) && v1 == allocated(mid, vt, need)
    } else {
        at.is_none() && v1 == mid
    }
}

/// What a request for a cell of `need` bytes with descriptor `vt` makes of
/// the state `v0`: the state `v1`, and the payload's address where there is
/// one. A collection runs exactly where the cell does not fit at once.
pub open spec fn alloc_result(
    v0: GcView,
    v1: GcView,
    at: Option<int>,
    vt: usize,
    need: int,
    t: Layout,
) -> bool {
    exists|mid: GcView| #[trigger] alloc_via(v0, mid, v1, at, vt, need, t)
}


/// A change of bytes inside the payload of cell `k` leaves the collector in
/// order, and every word of the other cells as it was.
pub(crate) proof fn lemma_payload_change(v: GcView, k: int, m1: Seq<u8>)
    requires
        idle_ok(v),
        0 <= k < v.cells.len(),
        m1.len() == v.mem.len(),
        forall|x: int|
            0 <= x < v.mem.len() && !(payload(v.from, v.cells[k]) <= x < v.from + v.cells[k].start
                + v.cells[k].size) ==> #[trigger] m1[x] == v.mem[x],
    ensures
        idle_ok(GcView { mem: m1, ..v }),
        forall|i: int, x: int|
            0 <= i < v.cells.len() && i != k && payload(v.from, #[trigger] v.cells[i]) <= x && x + 8
                <= v.from + v.cells[i].start + v.cells[i].size ==> #[trigger] word_at(m1, x)
                == word_at(v.mem, x),
{
    let v1 = GcView { mem: m1, ..v };
    lemma_cursor(v);
    lemma_tiles_within(v.cells, k);
    assert forall|i: int| 0 <= i < v.cells.len() implies size_word(
        m1,
        v.from,
        #[trigger] v.cells[i],
    ) == v.cells[i].size && head_word(m1, v.from, v.cells[i]) == v.cells[i].desc by {
        lemma_tiles_within(v.cells, i);
        if i < k {
            lemma_tiles_ordered(v.cells, i, k);
        } else if k < i {
            lemma_tiles_ordered(v.cells, k, i);
        }
        let a = v.from + v.cells[i].start;
        assert forall|x: int| a <= x < a + 16 implies m1[x] == v.mem[x] by {}
        lemma_word_agree(m1, v.mem, a);
        lemma_word_agree(m1, v.mem, a + 8);
        assert(head_word(v.mem, v.from, v.cells[i]) == v.cells[i].desc);
        assert(size_word(v.mem, v.from, v.cells[i]) == v.cells[i].size);
    }
    if v.cursor < v.chunk {
        let a = v.from + v.cursor;
        assert forall|x: int| a <= x < a + 16 implies m1[x] == v.mem[x] by {}
        lemma_word_agree(m1, v.mem, a);
        lemma_word_agree(m1, v.mem, a + 8);
    }
    assert forall|a: int| #[trigger] v1.fwd.contains_key(a) implies word_at(v1.mem, a - 16)
        == v1.fwd[a] && is_payload(v1.cells, v1.from, v1.fwd[a]) by {
        assert(v.fwd.contains_key(a));
        assert forall|x: int| a - 16 <= x < a - 8 implies m1[x] == v.mem[x] by {}
        lemma_word_agree(m1, v.mem, a - 16);
    }
    assert forall|key: slotmap::DefaultKey| #[trigger]
        v1.handles.contains_key(key) implies is_payload(
        v1.cells,
        v1.from,
        v1.handles[key] as int,
    ) by {
        assert(v.handles.contains_key(key));
    }
    assert forall|i: int, x: int|
        0 <= i < v.cells.len() && i != k && payload(v.from, #[trigger] v.cells[i]) <= x && x + 8
            <= v.from + v.cells[i].start + v.cells[i].size implies #[trigger] word_at(m1, x)
        == word_at(v.mem, x) by {
        lemma_tiles_within(v.cells, i);
        if i < k {
            lemma_tiles_ordered(v.cells, i, k);
        } else if k < i {
            lemma_tiles_ordered(v.cells, k, i);
        }
        assert forall|y: int| x <= y < x + 8 implies m1[y] == v.mem[y] by {}
        lemma_word_agree(m1, v.mem, x);
    }
}

/// The value's managed pointers lie inside it, and each is null or the
/// address of a payload; where the request will make a collection run, of a
/// payload that the collection keeps.
pub open spec fn value_ok(v0: GcView, t: Layout, vt: usize, data: Seq<u8>) -> bool {
    let need = cell_size_for(data.len() as int);
    let slots = t(vt, need - 16);
    forall|j: int|
        0 <= j < slots.len() ==> {
            let w = #[trigger] child(data, 0, slots[j]);
            &&& 8 * slots[j] + 8 <= data.len()
            &&& w == 0 || (is_payload(v0.cells, v0.from, w) && (need > v0.chunk - v0.cursor
                ==> reachable(v0, t, index_of(v0.cells, v0.from, w))))
        }
}

/// The state after `data` was written to the payload at `p` of the cell just
/// allocated, and, where a collection ran, its managed pointers were
/// rewritten.
pub open spec fn filled(
    va: GcView,
    p: int,
    data: Seq<u8>,
    moved: bool,
    t: Layout,
    vt: usize,
) -> GcView {
    let slots = t(vt, cell_size_for(data.len() as int) - 16);
    let mw = with_bytes(va.mem, p, data);
    GcView {
        mem: if moved {
            relocated(mw, va.fwd, p, slots, slots.len() as int)
        } else {
            mw
        },
        ..va
    }
}

/// The request goes from `v0` through an allocation, `mid` to `va`, to `v1`.
pub open spec fn typed_via(
    v0: GcView,
    mid: GcView,
    va: GcView,
    v1: GcView,
    at: Option<int>,
    vt: usize,
    data: Seq<u8>,
    t: Layout,
) -> bool {
    &&& alloc_via(v0, mid, va, at, vt, cell_size_for(data.len() as int), t)
    &&& match at {
        Some(p) => v1 == filled(va, p, data, mid.gc_count != v0.gc_count, t, vt),
        None => v1 == va,
    }
}

/// What a request to allocate a payload with the bytes `data` makes of the
/// state `v0`: an allocation, and where it gave an address, the bytes written
/// there, with their managed pointers rewritten if a collection ran.
pub open spec fn typed_result(
    v0: GcView,
    v1: GcView,
    at: Option<int>,
    vt: usize,
    data: Seq<u8>,
    t: Layout,
) -> bool {
    exists|mid: GcView, va: GcView| #[trigger] typed_via(v0, mid, va, v1, at, vt, data, t)
}

/// The words of a value written to a payload are the words of the payload.
pub(crate) proof fn lemma_written_word(mem: Seq<u8>, p: int, data: Seq<u8>, s: int)
    requires
        0 <= p,
        p + data.len() <= mem.len(),
        0 <= s,
        8 * s + 8 <= data.len(),
    ensures
        child(with_bytes(mem, p, data), p, s) == child(data, 0, s),
{
    let m1 = with_bytes(mem, p, data);
    assert forall|x: int| p + 8 * s <= x < p + 8 * s + 8 implies #[trigger] m1[x] == data[x - (p
        + 8 * s) + (0 + 8 * s)] by {}
    lemma_word_moved(m1, p + 8 * s, data, 0 + 8 * s);
}

/// After the value was written to the cell just allocated, the collector is
/// in order, and ready for the value's managed pointers to be rewritten if a
/// collection ran; if none ran, every managed pointer is in order.
pub(crate) proof fn lemma_filled_plain(
    v0: GcView,
    mid: GcView,
    vt: usize,
    data: Seq<u8>,
    t: Layout,
)
    requires
        idle_ok(mid),
        slots_ok(t),
        pointers_valid(mid, t),
        vt != 0,
        vt as int % 2 == 0,
        cell_size_for(data.len() as int) <= mid.chunk - mid.cursor,
        mid == v0 || crate::cycle::collected(v0, mid, t),
        mid == v0 <==> mid.gc_count == v0.gc_count,
        mid != v0 ==> cell_size_for(data.len() as int) > v0.chunk - v0.cursor,
        value_ok(v0, t, vt, data),
    ensures
        ({
            let need = cell_size_for(data.len() as int);
            let va = allocated(mid, vt, need);
            let p = mid.from + mid.cursor + 16;
            let vw = filled(va, p, data, false, t, vt);
            &&& idle_ok(vw)
            &&& is_payload(vw.cells, vw.from, p)
            &&& index_of(vw.cells, vw.from, p) == mid.cells.len()
            &&& vw.cells[mid.cells.len() as int] == (Cell { start: mid.cursor, size: need, desc: vt })
            &&& 0 <= p
            &&& p + data.len() <= vw.mem.len()
            &&& mid == v0 ==> pointers_valid(vw, t)
            &&& mid != v0 ==> crate::relocating::stale(vw, t, p)
            &&& forall|i: int, x: int|
                0 <= i < mid.cells.len() && payload(mid.from, #[trigger] mid.cells[i]) <= x && x + 8
                    <= mid.from + mid.cells[i].start + mid.cells[i].size ==> #[trigger] word_at(
                    vw.mem,
                    x,
                ) == word_at(mid.mem, x)
        }),
{
    let need = cell_size_for(data.len() as int);
    let va = allocated(mid, vt, need);
    let p = mid.from + mid.cursor + 16;
    let vw = filled(va, p, data, false, t, vt);
    let n = mid.cells.len() as int;
    let c = Cell { start: mid.cursor, size: need, desc: vt };
    lemma_cursor(mid);
    lemma_allocated(mid, vt, need);
    assert(va.cells[n] == c);
    assert(payload(va.from, va.cells[n]) == p);
    lemma_index_of(va.cells, va.from, n);
    lemma_payload_change(va, n, vw.mem);
    let slots = t(vt, need - 16);
    assert(cell_slots(t, c) == slots);
    // The words of the cells that were there are what they were.
    assert forall|i: int, x: int|
        0 <= i < mid.cells.len() && payload(mid.from, #[trigger] mid.cells[i]) <= x && x + 8
            <= mid.from + mid.cells[i].start + mid.cells[i].size implies #[trigger] word_at(
        vw.mem,
        x,
    ) == word_at(mid.mem, x) by {
        assert(va.cells[i] == mid.cells[i]);
        assert(word_at(vw.mem, x) == word_at(va.mem, x));
        lemma_tiles_within(mid.cells, i);
        assert forall|y: int| x <= y < x + 8 implies va.mem[y] == mid.mem[y] by {}
        lemma_word_agree(va.mem, mid.mem, x);
    }
    assert forall|j: int| 0 <= j < slots.len() implies #[trigger] child(vw.mem, p, slots[j])
        == child(data, 0, slots[j]) by {
        assert(0 <= t(vt, need - 16)[j]);
        let w = child(data, 0, slots[j]);
        assert(8 * slots[j] + 8 <= data.len());
        lemma_written_word(va.mem, p, data, slots[j]);
    }
    if mid == v0 {
        assert forall|i: int, j: int|
            0 <= i < vw.cells.len() && 0 <= j < cell_slots(t, vw.cells[i]).len() implies {
            let w = #[trigger] child(
                vw.mem,
                payload(vw.from, vw.cells[i]),
                cell_slots(t, vw.cells[i])[j],
            );
            w == 0 || is_payload(vw.cells, vw.from, w)
        } by {
            if i < n {
                let s = cell_slots(t, mid.cells[i])[j];
                assert(0 <= s && 8 * s + 8 <= mid.cells[i].size - 16);
                let w = child(mid.mem, payload(mid.from, mid.cells[i]), cell_slots(t, mid.cells[i])[j]);
                assert(w == 0 || is_payload(mid.cells, mid.from, w));
                assert(word_at(vw.mem, payload(mid.from, mid.cells[i]) + 8 * s) == word_at(
                    mid.mem,
                    payload(mid.from, mid.cells[i]) + 8 * s,
                ));
            } else {
                let w = child(data, 0, slots[j]);
                assert(child(vw.mem, p, slots[j]) == w);
            }
        }
    } else {
        assert(crate::relocating::new_slots_at(vw, t, p) == slots);
        assert forall|j: int| 0 <= j < slots.len() implies #[trigger] child(vw.mem, p, slots[j])
            == 0 || vw.fwd.contains_key(child(vw.mem, p, slots[j])) by {
            let w = child(data, 0, slots[j]);
            assert(child(vw.mem, p, slots[j]) == w);
            if w != 0 {
                let k = index_of(v0.cells, v0.from, w);
                assert(payload(v0.from, v0.cells[k]) == w);
                assert(reachable(v0, t, k));
                assert(mid.fwd.contains_key(payload(v0.from, v0.cells[k])));
            }
        }
    }
}

/// After the managed pointers of the value written to the cell just
/// allocated were rewritten, the collector and every managed pointer are in
/// order.
pub(crate) proof fn lemma_filled_moved(
    v0: GcView,
    mid: GcView,
    vt: usize,
    data: Seq<u8>,
    t: Layout,
)
    requires
        idle_ok(mid),
        slots_ok(t),
        pointers_valid(mid, t),
        vt != 0,
        vt as int % 2 == 0,
        cell_size_for(data.len() as int) <= mid.chunk - mid.cursor,
        crate::cycle::collected(v0, mid, t),
        mid.gc_count != v0.gc_count,
        mid != v0,
        cell_size_for(data.len() as int) > v0.chunk - v0.cursor,
        value_ok(v0, t, vt, data),
    ensures
        ({
            let need = cell_size_for(data.len() as int);
            let va = allocated(mid, vt, need);
            let p = mid.from + mid.cursor + 16;
            let vw = filled(va, p, data, false, t, vt);
            let vf = filled(va, p, data, true, t, vt);
            &&& vf == crate::relocating::rewritten(vw, t, p)
            &&& idle_ok(vf)
            &&& pointers_valid(vf, t)
        }),
{
    let need = cell_size_for(data.len() as int);
    let va = allocated(mid, vt, need);
    let p = mid.from + mid.cursor + 16;
    let vw = filled(va, p, data, false, t, vt);
    let vf = filled(va, p, data, true, t, vt);
    let n = mid.cells.len() as int;
    let c = Cell { start: mid.cursor, size: need, desc: vt };
    let slots = t(vt, need - 16);
    lemma_cursor(mid);
    lemma_filled_plain(v0, mid, vt, data, t);
    assert(cell_slots(t, c) == slots);
    assert(crate::relocating::new_slots_at(vw, t, p) == slots);
    assert(slots_fit(slots, need - 16));
    assert forall|j: int| 0 <= j < slots.len() implies #[trigger] child(vw.mem, p, slots[j]) == 0 || (
    vw.fwd.contains_key(child(vw.mem, p, slots[j])) && 0 <= vw.fwd[child(vw.mem, p, slots[j])]
        < word_limit()) by {
        let w = child(vw.mem, p, crate::relocating::new_slots_at(vw, t, p)[j]);
        if w != 0 {
            assert(vw.fwd.contains_key(w));
            let q = index_of(vw.cells, vw.from, vw.fwd[w]);
            lemma_tiles_within(vw.cells, q);
        }
    }
    lemma_relocated(vw.mem, vw.fwd, p, slots, slots.len() as int, need - 16);
    lemma_tiles_within(vw.cells, n);
    assert forall|x: int|
        0 <= x < vw.mem.len() && !(payload(vw.from, vw.cells[n]) <= x < vw.from + vw.cells[n].start
            + vw.cells[n].size) implies #[trigger] vf.mem[x] == vw.mem[x] by {
        if slot_byte(p, slots, slots.len() as int, x) {
            let j = choose|j: int|
                0 <= j < slots.len() && p + 8 * #[trigger] slots[j] <= x < p + 8 * slots[j] + 8;
            assert(0 <= slots[j] && 8 * slots[j] + 8 <= need - 16);
        }
    }
    lemma_payload_change(vw, n, vf.mem);
    assert forall|i: int, j: int|
        0 <= i < vf.cells.len() && 0 <= j < cell_slots(t, vf.cells[i]).len() implies {
        let w = #[trigger] child(vf.mem, payload(vf.from, vf.cells[i]), cell_slots(t, vf.cells[i])[j]);
        w == 0 || is_payload(vf.cells, vf.from, w)
    } by {
        if i < n {
            assert(vf.cells[i] == mid.cells[i]);
            let s = cell_slots(t, mid.cells[i])[j];
            assert(0 <= s && 8 * s + 8 <= mid.cells[i].size - 16);
            let x = payload(mid.from, mid.cells[i]) + 8 * s;
            let w = child(mid.mem, payload(mid.from, mid.cells[i]), cell_slots(t, mid.cells[i])[j]);
            assert(w == 0 || is_payload(mid.cells, mid.from, w));
            assert(payload(vw.from, vw.cells[i]) <= x && x + 8 <= vw.from + vw.cells[i].start
                + vw.cells[i].size);
            assert(word_at(vf.mem, x) == word_at(vw.mem, x));
            assert(word_at(vw.mem, x) == word_at(mid.mem, x));
            lemma_allocated(mid, vt, need);
        } else {
            assert(vf.cells[i] == c);
            let w0 = child(vw.mem, p, slots[j]);
            assert(child(vf.mem, p, slots[j]) == forwarded(vw.fwd, w0));
            if w0 != 0 {
                assert(vw.fwd.contains_key(w0));
            }
        }
    }
}


/// An allocation leaves the managed pointers of the cells that were there in
/// order. Those of the new cell are whatever the memory held.
pub(crate) proof fn lemma_allocated_settled(v: GcView, vt: usize, need: int, t: Layout, i: int)
    requires
        idle_ok(v),
        slots_ok(t),
        pointers_valid(v, t),
        vt != 0,
        vt as int % 2 == 0,
        16 <= need,
        need % 16 == 0,
        need <= v.chunk - v.cursor,
        0 <= i < v.cells.len(),
    ensures
        crate::model::settled(allocated(v, vt, need), t, i),
{
    let v1 = allocated(v, vt, need);
    lemma_cursor(v);
    lemma_allocated(v, vt, need);
    lemma_tiles_within(v.cells, i);
    assert(v1.cells[i] == v.cells[i]);
    let slots = cell_slots(t, v.cells[i]);
    assert forall|j: int| 0 <= j < slots.len() implies {
        let c = #[trigger] child(v1.mem, payload(v1.from, v1.cells[i]), cell_slots(t, v1.cells[i])[j]);
        c == 0 || is_payload(v1.cells, v1.from, c)
    } by {
        let c0 = child(v.mem, payload(v.from, v.cells[i]), cell_slots(t, v.cells[i])[j]);
        assert(c0 == 0 || is_payload(v.cells, v.from, c0));
        assert(0 <= slots[j] && 8 * slots[j] + 8 <= v.cells[i].size - 16);
        let y = payload(v.from, v.cells[i]) + 8 * slots[j];
        assert forall|x: int| y <= x < y + 8 implies v1.mem[x] == v.mem[x] by {}
        lemma_word_agree(v1.mem, v.mem, y);
    }
}

} // verus!
