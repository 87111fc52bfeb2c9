//! The third part of a collection as mathematics: what holds while the
//! managed pointers in the copies are rewritten.

use crate::copying::{copy_of, copying, lemma_copied, moved};
use crate::marking::{lemma_pointers_carry, listed, marked_at, marking};
use crate::mem::{lemma_word_agree, lemma_word_moved, store_word, word_at, word_limit};
use crate::model::{
    GcView, Layout, base_ok, cell_slots, child, extent, fwd_ok, geometry_ok, head_word,
    heads_plain, in_payload, index_of, is_payload, lemma_extent_aligned, lemma_index_of,
    lemma_tiles_ordered, lemma_tiles_within, new_base, new_cells, payload, size_word, sizes_match,
    slots_ok, tiles,
};
use vstd::prelude::*;

verus! {

/// Where a managed pointer points after the move: null stays null.
pub open spec fn forwarded(fwd: Map<int, int>, w: int) -> int {
    if w == 0 {
        0
    } else {
        fwd[w]
    }
}

/// The memory after the first `n` of the named words of the payload at `p`
/// were rewritten, each one that is not null to where its target moved.
pub open spec fn relocated(mem: Seq<u8>, fwd: Map<int, int>, p: int, slots: Seq<int>, n: int) -> Seq<
    u8,
>
    decreases n,
{
    if n <= 0 {
        mem
    } else {
        let m = relocated(mem, fwd, p, slots, n - 1);
        let w = child(m, p, slots[n - 1]);
        if w == 0 {
            m
        } else {
            store_word(m, p + 8 * slots[n - 1], fwd[w])
        }
    }
}

/// `x` is the address of a byte of one of the first `n` named words of the
/// payload at `p`.
pub open spec fn slot_byte(p: int, slots: Seq<int>, n: int, x: int) -> bool {
    exists|j: int| 0 <= j < n && p + 8 * #[trigger] slots[j] <= x < p + 8 * slots[j] + 8
}

/// The named words are words of a payload of `len` bytes, each named once.
pub open spec fn slots_fit(slots: Seq<int>, len: int) -> bool {
    &&& forall|j: int| 0 <= j < slots.len() ==> 0 <= #[trigger] slots[j] && 8 * slots[j] + 8 <= len
    &&& forall|j: int, k: int|
        0 <= j < k < slots.len() ==> #[trigger] slots[j] != #[trigger] slots[k]
}

/// What `relocated` changes and what it leaves.
pub proof fn lemma_relocated(
    mem: Seq<u8>,
    fwd: Map<int, int>,
    p: int,
    slots: Seq<int>,
    n: int,
    len: int,
)
    requires
        0 <= n <= slots.len(),
        slots_fit(slots, len),
        0 <= p,
        p + len <= mem.len(),
        forall|j: int|
            0 <= j < slots.len() ==> #[trigger] child(mem, p, slots[j]) == 0 || (fwd.contains_key(
                child(mem, p, slots[j]),
            ) && 0 <= fwd[child(mem, p, slots[j])] < word_limit()),
    ensures
        relocated(mem, fwd, p, slots, n).len() == mem.len(),
        forall|x: int|
            0 <= x < mem.len() && !slot_byte(p, slots, n, x) ==> #[trigger] relocated(
                mem,
                fwd,
                p,
                slots,
                n,
            )[x] == mem[x],
        forall|j: int|
            0 <= j < n ==> #[trigger] child(relocated(mem, fwd, p, slots, n), p, slots[j])
                == forwarded(fwd, child(mem, p, slots[j])),
        forall|j: int|
            n <= j < slots.len() ==> #[trigger] child(relocated(mem, fwd, p, slots, n), p, slots[j])
                == child(mem, p, slots[j]),
    decreases n,
{
    broadcast use crate::mem::group_words;

    if n > 0 {
        lemma_relocated(mem, fwd, p, slots, n - 1, len);
        let m = relocated(mem, fwd, p, slots, n - 1);
        let m1 = relocated(mem, fwd, p, slots, n);
        let s = slots[n - 1];
        let w = child(m, p, s);
        assert(w == child(mem, p, s));
        assert forall|x: int| 0 <= x < mem.len() && !slot_byte(p, slots, n, x) implies #[trigger] m1[x]
            == mem[x] by {
            if slot_byte(p, slots, n - 1, x) {
                let j = choose|j: int|
                    0 <= j < n - 1 && p + 8 * #[trigger] slots[j] <= x < p + 8 * slots[j] + 8;
                assert(0 <= j < n && p + 8 * slots[j] <= x < p + 8 * slots[j] + 8);
            }
            if p + 8 * s <= x < p + 8 * s + 8 {
                assert(0 <= n - 1 < n && p + 8 * slots[n - 1] <= x < p + 8 * slots[n - 1] + 8);
            }
            assert(m1[x] == m[x]);
        }
        assert forall|j: int| 0 <= j < slots.len() implies #[trigger] child(m1, p, slots[j]) == (if j
            < n {
            forwarded(fwd, child(mem, p, slots[j]))
        } else {
            child(mem, p, slots[j])
        }) by {
            if j != n - 1 {
                if j < n - 1 {
                    assert(slots[j] != slots[n - 1]);
                } else {
                    assert(slots[n - 1] != slots[j]);
                }
                assert(0 <= slots[j] && 8 * slots[j] + 8 <= len);
                assert(child(m1, p, slots[j]) == child(m, p, slots[j]));
            } else {
                assert(0 <= s && 8 * s + 8 <= len);
            }
        }
    }
}

/// What holds of the half that cells were moved to, at every moment from the
/// end of copying on: its cells tile it, their headers are plain, and every
/// payload that moved left its new address in its old header.
pub open spec fn reloc_ok(v: GcView) -> bool {
    &&& geometry_ok(v)
    &&& tiles(new_cells(v))
    &&& extent(new_cells(v)) <= v.chunk
    &&& sizes_match(v.mem, new_base(v), new_cells(v))
    &&& heads_plain(v.mem, new_base(v), new_cells(v))
    &&& fwd_ok(v)
}

/// The slots of the cell of the new half whose payload is at `p`.
pub open spec fn new_slots_at(v: GcView, t: Layout, p: int) -> Seq<int> {
    cell_slots(t, new_cells(v)[index_of(new_cells(v), new_base(v), p)])
}

/// Every managed pointer in the payload at `p` is null or the old address of
/// a payload that moved.
pub open spec fn stale(v: GcView, t: Layout, p: int) -> bool {
    forall|j: int|
        0 <= j < new_slots_at(v, t, p).len() ==> #[trigger] child(
            v.mem,
            p,
            new_slots_at(v, t, p)[j],
        ) == 0 || v.fwd.contains_key(child(v.mem, p, new_slots_at(v, t, p)[j]))
}

/// The state after the managed pointers in the payload at `p` were rewritten.
pub open spec fn rewritten(v: GcView, t: Layout, p: int) -> GcView {
    GcView {
        mem: relocated(
            v.mem,
            v.fwd,
            p,
            new_slots_at(v, t, p),
            new_slots_at(v, t, p).len() as int,
        ),
        ..v
    }
}

/// A word stored inside a payload of the new half leaves that half and the
/// forwarding addresses in order.
pub proof fn lemma_store_keeps_reloc(v: GcView, x: int, w: int)
    requires
        reloc_ok(v),
        in_payload(new_cells(v), new_base(v), x),
    ensures
        reloc_ok(GcView { mem: store_word(v.mem, x, w), ..v }),
        0 <= x,
        x + 8 <= v.mem.len(),
{
    broadcast use crate::mem::group_words;

    let v1 = GcView { mem: store_word(v.mem, x, w), ..v };
    let cells = new_cells(v);
    let k = crate::model::holder_of(cells, new_base(v), x);
    lemma_tiles_within(cells, k);
    crate::model::lemma_store_keeps_headers(v.mem, new_base(v), cells, x, w);
    assert forall|a: int| #[trigger] v1.fwd.contains_key(a) implies word_at(v1.mem, a - 16)
        == v1.fwd[a] by {
        assert(v.fwd.contains_key(a));
    }
}

/// A pointer that moved is the address of a payload with a header in front
/// of it, and where it moved to is one of the machine's numbers.
pub proof fn lemma_fwd_bounds(v: GcView, a: int)
    requires
        reloc_ok(v),
        v.fwd.contains_key(a),
    ensures
        16 <= a <= v.mem.len(),
        word_at(v.mem, a - 16) == v.fwd[a],
        16 <= v.fwd[a] <= usize::MAX,
        v.fwd[a] < word_limit(),
{
    let q = index_of(new_cells(v), new_base(v), v.fwd[a]);
    lemma_tiles_within(new_cells(v), q);
}

/// `x` is the address of a byte of the payload of one of the first `r` cells
/// of the scratch half.
pub open spec fn done_byte(vc: GcView, r: int, x: int) -> bool {
    exists|q: int|
        0 <= q < r && q < vc.to_cells.len() && payload(vc.to, #[trigger] vc.to_cells[q]) <= x
            < vc.to + vc.to_cells[q].start + vc.to_cells[q].size
}

/// In cell `q` of the scratch half, every managed pointer is the forwarded one
/// of what copying left there, and every other byte is what copying left.
pub open spec fn cell_rewritten(vc: GcView, v: GcView, t: Layout, q: int) -> bool {
    let d = vc.to_cells[q];
    let p = payload(vc.to, d);
    let slots = cell_slots(t, d);
    &&& forall|j: int|
        0 <= j < slots.len() ==> #[trigger] child(v.mem, p, slots[j]) == forwarded(
            vc.fwd,
            child(vc.mem, p, slots[j]),
        )
    &&& forall|x: int|
        p <= x < vc.to + d.start + d.size && !slot_byte(p, slots, slots.len() as int, x)
            ==> #[trigger] v.mem[x] == vc.mem[x]
}

/// What holds while the collection that finished copying in `vc` rewrites:
/// the first `r` cells of the scratch half are rewritten, and nothing else
/// has changed.
pub open spec fn relocating(vc: GcView, v: GcView, r: int, t: Layout) -> bool {
    &&& v == (GcView { mem: v.mem, ..vc })
    &&& v.mem.len() == vc.mem.len()
    &&& 0 <= r <= vc.to_cells.len()
    &&& forall|x: int|
        0 <= x < vc.mem.len() && !done_byte(vc, r, x) ==> #[trigger] v.mem[x] == vc.mem[x]
    &&& forall|q: int| 0 <= q < r ==> #[trigger] cell_rewritten(vc, v, t, q)
}

/// Every managed pointer in every cell of the scratch half is null or the old
/// address of a payload that moved.
pub open spec fn all_stale(vc: GcView, t: Layout) -> bool {
    forall|q: int|
        0 <= q < vc.to_cells.len() ==> stale(vc, t, #[trigger] payload(vc.to, vc.to_cells[q]))
}

/// No byte of a cell's header, of a cell not among the first `r`, or outside
/// the scratch half's cells is a byte of a payload that was rewritten.
pub(crate) proof fn lemma_not_done(vc: GcView, r: int, q: int, x: int)
    requires
        tiles(vc.to_cells),
        0 <= r <= vc.to_cells.len(),
        0 <= q < vc.to_cells.len(),
        vc.to + vc.to_cells[q].start <= x < vc.to + vc.to_cells[q].start + vc.to_cells[q].size,
        r <= q || x < vc.to + vc.to_cells[q].start + 16,
    ensures
        !done_byte(vc, r, x),
{
    if done_byte(vc, r, x) {
        let j = choose|j: int|
            0 <= j < r && j < vc.to_cells.len() && payload(vc.to, #[trigger] vc.to_cells[j]) <= x
                < vc.to + vc.to_cells[j].start + vc.to_cells[j].size;
        if j < q {
            lemma_tiles_ordered(vc.to_cells, j, q);
        } else if q < j {
            lemma_tiles_ordered(vc.to_cells, q, j);
        }
    }
}

/// No byte outside the cells of the scratch half is a byte of a payload that
/// was rewritten.
pub(crate) proof fn lemma_not_done_outside(vc: GcView, r: int, x: int)
    requires
        tiles(vc.to_cells),
        0 <= r <= vc.to_cells.len(),
        x < vc.to || vc.to + extent(vc.to_cells) <= x,
    ensures
        !done_byte(vc, r, x),
{
    if done_byte(vc, r, x) {
        let j = choose|j: int|
            0 <= j < r && j < vc.to_cells.len() && payload(vc.to, #[trigger] vc.to_cells[j]) <= x
                < vc.to + vc.to_cells[j].start + vc.to_cells[j].size;
        lemma_tiles_within(vc.to_cells, j);
    }
}

/// While rewriting, the scratch half stays in order, and so does the free
/// cell behind its cells.
pub(crate) proof fn lemma_reloc_kept(vc: GcView, v: GcView, r: int, t: Layout)
    requires
        reloc_ok(vc),
        vc.in_gc,
        relocating(vc, v, r, t),
    ensures
        reloc_ok(v),
        crate::model::free_tail(vc.mem, vc.to, extent(vc.to_cells), vc.chunk)
            ==> crate::model::free_tail(v.mem, vc.to, extent(vc.to_cells), vc.chunk),
{
    let cells = vc.to_cells;
    assert forall|q: int| 0 <= q < cells.len() implies head_word(v.mem, vc.to, #[trigger] cells[q])
        == cells[q].desc && size_word(v.mem, vc.to, cells[q]) == cells[q].size by {
        let a = vc.to + cells[q].start;
        lemma_tiles_within(cells, q);
        assert forall|x: int| a <= x < a + 16 implies v.mem[x] == vc.mem[x] by {
            lemma_not_done(vc, r, q, x);
        }
        lemma_word_agree(v.mem, vc.mem, a);
        lemma_word_agree(v.mem, vc.mem, a + 8);
        assert(head_word(vc.mem, vc.to, cells[q]) == cells[q].desc);
        assert(size_word(vc.mem, vc.to, cells[q]) == cells[q].size);
    }
    assert forall|a: int| #[trigger] v.fwd.contains_key(a) implies word_at(v.mem, a - 16)
        == v.fwd[a] by {
        assert(vc.fwd.contains_key(a));
        assert forall|x: int| a - 16 <= x < a - 8 implies v.mem[x] == vc.mem[x] by {
            lemma_not_done_outside(vc, r, x);
        }
        lemma_word_agree(v.mem, vc.mem, a - 16);
    }
    if crate::model::free_tail(vc.mem, vc.to, extent(vc.to_cells), vc.chunk) && extent(
        vc.to_cells,
    ) < vc.chunk {
        let a = vc.to + extent(vc.to_cells);
        lemma_extent_aligned(vc.to_cells);
        assert forall|x: int| a <= x < a + 16 implies v.mem[x] == vc.mem[x] by {
            lemma_not_done_outside(vc, r, x);
        }
        lemma_word_agree(v.mem, vc.mem, a);
        lemma_word_agree(v.mem, vc.mem, a + 8);
    }
}

/// While rewriting, the next cell to rewrite holds what copying left in it.
pub(crate) proof fn lemma_reloc_ready(vc: GcView, v: GcView, r: int, t: Layout)
    requires
        reloc_ok(vc),
        vc.in_gc,
        slots_ok(t),
        all_stale(vc, t),
        relocating(vc, v, r, t),
        r < vc.to_cells.len(),
    ensures
        is_payload(new_cells(v), new_base(v), payload(vc.to, vc.to_cells[r])),
        new_slots_at(v, t, payload(vc.to, vc.to_cells[r])) == cell_slots(t, vc.to_cells[r]),
        stale(v, t, payload(vc.to, vc.to_cells[r])),
        forall|j: int|
            0 <= j < cell_slots(t, vc.to_cells[r]).len() ==> #[trigger] child(
                v.mem,
                payload(vc.to, vc.to_cells[r]),
                cell_slots(t, vc.to_cells[r])[j],
            ) == child(vc.mem, payload(vc.to, vc.to_cells[r]), cell_slots(t, vc.to_cells[r])[j]),
{
    let d = vc.to_cells[r];
    let p = payload(vc.to, d);
    crate::model::lemma_index_of(vc.to_cells, vc.to, r);
    let slots = cell_slots(t, d);
    assert(new_slots_at(vc, t, p) == slots);
    assert(stale(vc, t, p));
    lemma_tiles_within(vc.to_cells, r);
    assert forall|j: int| 0 <= j < slots.len() implies #[trigger] child(v.mem, p, slots[j])
        == child(vc.mem, p, slots[j]) by {
        assert(0 <= slots[j] && 8 * slots[j] + 8 <= d.size - 16);
        let a = p + 8 * slots[j];
        assert forall|x: int| a <= x < a + 8 implies v.mem[x] == vc.mem[x] by {
            lemma_not_done(vc, r, r, x);
        }
        lemma_word_agree(v.mem, vc.mem, a);
    }
    assert forall|j: int| 0 <= j < new_slots_at(v, t, p).len() implies #[trigger] child(
        v.mem,
        p,
        new_slots_at(v, t, p)[j],
    ) == 0 || v.fwd.contains_key(child(v.mem, p, new_slots_at(v, t, p)[j])) by {
        assert(child(v.mem, p, slots[j]) == child(vc.mem, p, slots[j]));
        assert(child(vc.mem, p, new_slots_at(vc, t, p)[j]) == 0 || vc.fwd.contains_key(
            child(vc.mem, p, new_slots_at(vc, t, p)[j]),
        ));
    }
}

/// Rewriting goes on after one more cell was rewritten.
pub(crate) proof fn lemma_reloc_step(vc: GcView, v: GcView, r: int, t: Layout)
    requires
        reloc_ok(vc),
        vc.in_gc,
        slots_ok(t),
        all_stale(vc, t),
        relocating(vc, v, r, t),
        r < vc.to_cells.len(),
    ensures
        relocating(vc, rewritten(v, t, payload(vc.to, vc.to_cells[r])), r + 1, t),
{
    let d = vc.to_cells[r];
    let p = payload(vc.to, d);
    let slots = cell_slots(t, d);
    let n = slots.len() as int;
    let v1 = rewritten(v, t, p);
    lemma_reloc_ready(vc, v, r, t);
    lemma_reloc_kept(vc, v, r, t);
    lemma_tiles_within(vc.to_cells, r);
    assert(slots_fit(slots, d.size - 16));
    assert forall|j: int| 0 <= j < slots.len() implies #[trigger] child(v.mem, p, slots[j]) == 0 || (
    v.fwd.contains_key(child(v.mem, p, slots[j])) && 0 <= v.fwd[child(v.mem, p, slots[j])]
        < word_limit()) by {
        let w = child(v.mem, p, new_slots_at(v, t, p)[j]);
        if w != 0 {
            lemma_fwd_bounds(v, w);
        }
    }
    lemma_relocated(v.mem, v.fwd, p, slots, n, d.size - 16);
    assert(v1.mem == relocated(v.mem, v.fwd, p, slots, n));
    // Bytes in no rewritten payload are what copying left.
    assert forall|x: int| 0 <= x < vc.mem.len() && !done_byte(vc, r + 1, x) implies #[trigger] v1.mem[x]
        == vc.mem[x] by {
        if done_byte(vc, r, x) {
            let j = choose|j: int|
                0 <= j < r && j < vc.to_cells.len() && payload(vc.to, #[trigger] vc.to_cells[j])
                    <= x < vc.to + vc.to_cells[j].start + vc.to_cells[j].size;
            assert(done_byte(vc, r + 1, x));
        }
        if slot_byte(p, slots, n, x) {
            let j = choose|j: int| 0 <= j < n && p + 8 * #[trigger] slots[j] <= x < p + 8 * slots[j] + 8;
            assert(0 <= slots[j] && 8 * slots[j] + 8 <= d.size - 16);
            assert(payload(vc.to, vc.to_cells[r]) <= x < vc.to + vc.to_cells[r].start
                + vc.to_cells[r].size);
            assert(done_byte(vc, r + 1, x));
        }
        assert(v1.mem[x] == v.mem[x]);
    }
    assert forall|q: int| 0 <= q < r + 1 implies #[trigger] cell_rewritten(vc, v1, t, q) by {
        let dq = vc.to_cells[q];
        let pq = payload(vc.to, dq);
        let sq = cell_slots(t, dq);
        lemma_tiles_within(vc.to_cells, q);
        if q < r {
            assert(cell_rewritten(vc, v, t, q));
            lemma_tiles_ordered(vc.to_cells, q, r);
            // Nothing of an earlier cell is a slot of this one.
            assert forall|x: int| pq <= x < vc.to + dq.start + dq.size implies v1.mem[x]
                == v.mem[x] by {
                if slot_byte(p, slots, n, x) {
                    let j = choose|j: int|
                        0 <= j < n && p + 8 * #[trigger] slots[j] <= x < p + 8 * slots[j] + 8;
                    assert(0 <= slots[j] && 8 * slots[j] + 8 <= d.size - 16);
                }
            }
            assert forall|j: int| 0 <= j < sq.len() implies #[trigger] child(v1.mem, pq, sq[j])
                == forwarded(vc.fwd, child(vc.mem, pq, sq[j])) by {
                assert(0 <= sq[j] && 8 * sq[j] + 8 <= dq.size - 16);
                lemma_word_agree(v1.mem, v.mem, pq + 8 * sq[j]);
                assert(child(v.mem, pq, sq[j]) == forwarded(vc.fwd, child(vc.mem, pq, sq[j])));
            }
        } else {
            assert forall|j: int| 0 <= j < sq.len() implies #[trigger] child(v1.mem, pq, sq[j])
                == forwarded(vc.fwd, child(vc.mem, pq, sq[j])) by {
                assert(child(v1.mem, p, slots[j]) == forwarded(v.fwd, child(v.mem, p, slots[j])));
                assert(child(v.mem, p, slots[j]) == child(vc.mem, p, slots[j]));
            }
            assert forall|x: int|
                pq <= x < vc.to + dq.start + dq.size && !slot_byte(
                    pq,
                    sq,
                    sq.len() as int,
                    x,
                ) implies #[trigger] v1.mem[x] == vc.mem[x] by {
                assert(v1.mem[x] == v.mem[x]);
                lemma_not_done(vc, r, r, x);
            }
        }
    }
}

/// When copying is done, the scratch half is in order, every pointer in it is
/// null or the old address of a payload that moved, the payloads that moved
/// are those of the marked cells, and every root moved.
pub(crate) proof fn lemma_copy_done(v0: GcView, vm: GcView, v: GcView, src: Seq<int>, t: Layout)
    requires
        crate::marking::marking(v0, vm, t),
        vm.work.len() == 0,
        base_ok(v0),
        slots_ok(t),
        crate::model::pointers_valid(v0, t),
        copying(vm, v, vm.cells.len() as int, src),
    ensures
        reloc_ok(v),
        all_stale(v, t),
        forall|k: int|
            0 <= k < vm.cells.len() ==> (v.fwd.contains_key(
                #[trigger] payload(vm.from, vm.cells[k]),
            ) <==> marked_at(vm.mem, payload(vm.from, vm.cells[k]))),
        forall|a: int| #[trigger] v.fwd.contains_key(a) ==> is_payload(vm.cells, vm.from, a),
        forall|key: slotmap::DefaultKey| #[trigger]
            v.handles.contains_key(key) ==> v.fwd.contains_key(v.handles[key] as int),
{
    let n = vm.cells.len() as int;
    assert forall|q: int| 0 <= q < v.to_cells.len() implies head_word(
        v.mem,
        v.to,
        #[trigger] v.to_cells[q],
    ) == v.to_cells[q].desc && size_word(v.mem, v.to, v.to_cells[q]) == v.to_cells[q].size by {
        assert(0 <= src[q] && copy_of(vm, v, src[q], q));
    }
    assert forall|a: int| #[trigger] v.fwd.contains_key(a) implies {
        &&& vm.from + 16 <= a <= vm.from + v.chunk
        &&& word_at(v.mem, a - 16) == v.fwd[a]
        &&& is_payload(v.to_cells, v.to, v.fwd[a])
        &&& is_payload(vm.cells, vm.from, a)
    } by {
        let r = choose|r: int|
            0 <= r < src.len() && a == payload(vm.from, vm.cells[#[trigger] src[r]]);
        assert(0 <= src[r] && copy_of(vm, v, src[r], r));
        lemma_tiles_within(vm.cells, src[r]);
        assert(payload(v.to, v.to_cells[r]) == v.fwd[a]);
    }
    assert forall|k: int| 0 <= k < vm.cells.len() implies (v.fwd.contains_key(
        #[trigger] payload(vm.from, vm.cells[k]),
    ) <==> marked_at(vm.mem, payload(vm.from, vm.cells[k]))) by {
        let a = payload(vm.from, vm.cells[k]);
        if marked_at(vm.mem, a) {
            let r = lemma_copied(vm, v, src, k);
        }
        if v.fwd.contains_key(a) {
            let r = choose|r: int|
                0 <= r < src.len() && a == payload(vm.from, vm.cells[#[trigger] src[r]]);
            assert(0 <= src[r] && copy_of(vm, v, src[r], r));
            crate::model::lemma_index_unique(vm.cells, vm.from, k, src[r]);
        }
    }
    assert forall|key: slotmap::DefaultKey| #[trigger]
        v.handles.contains_key(key) implies v.fwd.contains_key(v.handles[key] as int) by {
        let a = vm.handles[key] as int;
        assert(vm.handles.contains_key(key));
        assert(is_payload(vm.cells, vm.from, a));
        assert(!crate::marking::listed(vm.work, a));
        let k = index_of(vm.cells, vm.from, a);
        assert(marked_at(vm.mem, payload(vm.from, vm.cells[k])));
    }
    crate::marking::lemma_pointers_carry(v0, vm, t);
    assert forall|q: int| 0 <= q < v.to_cells.len() implies stale(
        v,
        t,
        #[trigger] payload(v.to, v.to_cells[q]),
    ) by {
        let k = src[q];
        assert(0 <= src[q] && copy_of(vm, v, k, q));
        let d = v.to_cells[q];
        let c = vm.cells[k];
        let p = payload(v.to, d);
        crate::model::lemma_index_of(v.to_cells, v.to, q);
        let slots = cell_slots(t, d);
        assert(new_slots_at(v, t, p) == slots);
        assert(slots == cell_slots(t, c));
        assert forall|j: int| 0 <= j < slots.len() implies #[trigger] child(v.mem, p, slots[j])
            == 0 || v.fwd.contains_key(child(v.mem, p, slots[j])) by {
            assert(0 <= slots[j] && 8 * slots[j] + 8 <= c.size - 16);
            let a = p + 8 * slots[j];
            let b = payload(vm.from, c) + 8 * slots[j];
            assert forall|x: int| a <= x < a + 8 implies #[trigger] v.mem[x] == vm.mem[x - a
                + b] by {
                assert(v.mem[x] == vm.mem[x - payload(v.to, d) + payload(vm.from, c)]);
            }
            lemma_word_moved(v.mem, a, vm.mem, b);
            let w = child(vm.mem, payload(vm.from, vm.cells[k]), cell_slots(t, vm.cells[k])[j]);
            assert(w == child(v.mem, p, slots[j]));
            if w != 0 {
                assert(is_payload(vm.cells, vm.from, w));
                assert(!crate::marking::listed(vm.work, w));
                assert(marked_at(vm.mem, w));
                let k2 = index_of(vm.cells, vm.from, w);
                assert(marked_at(vm.mem, payload(vm.from, vm.cells[k2])));
            }
        }
    }
}

/// When rewriting is done, every managed pointer in the scratch half is null
/// or the address of a payload of that half.
pub(crate) proof fn lemma_reloc_done(vc: GcView, v: GcView, t: Layout)
    requires
        reloc_ok(vc),
        vc.in_gc,
        slots_ok(t),
        all_stale(vc, t),
        relocating(vc, v, vc.to_cells.len() as int, t),
    ensures
        forall|q: int, j: int|
            0 <= q < vc.to_cells.len() && 0 <= j < cell_slots(t, vc.to_cells[q]).len() ==> {
                let w = #[trigger] child(
                    v.mem,
                    payload(vc.to, vc.to_cells[q]),
                    cell_slots(t, vc.to_cells[q])[j],
                );
                w == 0 || is_payload(vc.to_cells, vc.to, w)
            },
{
    assert forall|q: int, j: int|
        0 <= q < vc.to_cells.len() && 0 <= j < cell_slots(t, vc.to_cells[q]).len() implies {
        let w = #[trigger] child(
            v.mem,
            payload(vc.to, vc.to_cells[q]),
            cell_slots(t, vc.to_cells[q])[j],
        );
        w == 0 || is_payload(vc.to_cells, vc.to, w)
    } by {
        let d = vc.to_cells[q];
        let p = payload(vc.to, d);
        let slots = cell_slots(t, d);
        assert(cell_rewritten(vc, v, t, q));
        crate::model::lemma_index_of(vc.to_cells, vc.to, q);
        assert(new_slots_at(vc, t, p) == slots);
        assert(stale(vc, t, p));
        let w0 = child(vc.mem, p, new_slots_at(vc, t, p)[j]);
        assert(child(v.mem, p, slots[j]) == forwarded(vc.fwd, w0));
        if w0 != 0 {
            assert(vc.fwd.contains_key(w0));
        }
    }
}

} // verus!
