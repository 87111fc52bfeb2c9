//! What holds of the collector whatever it is asked to do: statements about
//! every state and every request, proved from the contracts of the
//! operations.

use crate::bump::{alloc_result, alloc_via, allocated, cell_size_for, lemma_cursor};
use crate::cycle::{collected, has_source, image_of, kept, live_before};
use crate::mem::{store_word, word_at};
use crate::model::{
    abuts, base_ok, cell_slots, child, edge, idle_ok, index_of, is_payload, is_root,
    lemma_index_of, lemma_tiles_ordered, lemma_tiles_within, payload, pointers_valid, reach_in,
    reachable, settled, slots_ok, tiles, GcView, Layout,
};
use crate::relocating::forwarded;
use slotmap::DefaultKey;
use vstd::prelude::*;

verus! {

/// The offsets of the cells that a walk over a half visits, header by header
/// from `off` on: each header's size leads to the next. The walk ends at `end`,
/// or at a header whose size is less than a header's or leads past `end`.
pub open spec fn walk(mem: Seq<u8>, base: int, off: int, end: int) -> Seq<int>
    decreases end - off,
{
    if off >= end || word_at(mem, base + off + 8) < 16 || off + word_at(mem, base + off + 8)
        > end {
        Seq::empty()
    } else {
        seq![off] + walk(mem, base, off + word_at(mem, base + off + 8), end)
    }
}

/// The sum of the sizes of the cells that the walk from `off` on visits.
pub open spec fn walk_total(mem: Seq<u8>, base: int, off: int, end: int) -> int
    decreases end - off,
{
    if off >= end || word_at(mem, base + off + 8) < 16 || off + word_at(mem, base + off + 8)
        > end {
        0
    } else {
        word_at(mem, base + off + 8) + walk_total(
            mem,
            base,
            off + word_at(mem, base + off + 8),
            end,
        )
    }
}

/// The offsets of the cells from cell `i` on, and of the free cell behind
/// them if there is one.
pub open spec fn starts_from(v: GcView, i: int) -> Seq<int>
    decreases v.cells.len() - i,
{
    if i < 0 {
        Seq::empty()
    } else if i >= v.cells.len() {
        if v.cursor < v.chunk {
            seq![v.cursor]
        } else {
            Seq::empty()
        }
    } else {
        seq![v.cells[i].start] + starts_from(v, i + 1)
    }
}

/// In every state between collections, the walk from cell `i` on visits the
/// cells from `i` on and then the free cell, and the sizes it meets sum to
/// what is left of the half.
pub proof fn lemma_walk_from(v: GcView, i: int)
    requires
        idle_ok(v),
        0 <= i <= v.cells.len(),
    ensures
        walk(v.mem, v.from, crate::copying::bound(v, i), v.chunk) == starts_from(v, i),
        walk_total(v.mem, v.from, crate::copying::bound(v, i), v.chunk) == v.chunk
            - crate::copying::bound(v, i),
    decreases v.cells.len() - i,
{
    lemma_cursor(v);
    if i < v.cells.len() {
        lemma_tiles_within(v.cells, i);
        assert(crate::model::size_word(v.mem, v.from, v.cells[i]) == v.cells[i].size);
        crate::copying::lemma_bound(v, i);
        lemma_walk_from(v, i + 1);
    } else if v.cursor < v.chunk {
        let size = word_at(v.mem, v.from + v.cursor + 8);
        assert(size == v.chunk - v.cursor);
        assert(walk(v.mem, v.from, v.cursor + size, v.chunk) =~= Seq::<int>::empty());
        assert(walk(v.mem, v.from, v.cursor, v.chunk) =~= seq![v.cursor]);
        assert(walk_total(v.mem, v.from, v.cursor + size, v.chunk) == 0);
        assert(walk_total(v.mem, v.from, v.cursor, v.chunk) == size);
    }
}

/// In every state between collections, so after every collection and every
/// allocation, a walk over the active half visits exactly the cells and then
/// the free cell; the sizes it meets sum to the half's size; and where cells
/// end before the half does, the last cell visited is free and takes the
/// rest.
pub proof fn lemma_walk(v: GcView)
    requires
        idle_ok(v),
    ensures
        walk(v.mem, v.from, 0, v.chunk) == starts_from(v, 0),
        walk_total(v.mem, v.from, 0, v.chunk) == v.chunk,
        v.cursor < v.chunk ==> word_at(v.mem, v.from + v.cursor) == 0 && word_at(
            v.mem,
            v.from + v.cursor + 8,
        ) == v.chunk - v.cursor,
{
    if v.cells.len() > 0 {
        assert(v.cells[0].start == 0);
    }
    lemma_walk_from(v, 0);
}

/// The payload of every cell lies in the active half, 16 bytes behind the
/// cell's start, at a multiple of 16: before the half's end if the payload
/// has a byte, and at the latest at its end if it has none. So does what
/// every handle anchors, and what an allocation returns.
pub proof fn lemma_payload_in_half(v: GcView, p: int)
    requires
        base_ok(v),
        is_payload(v.cells, v.from, p),
    ensures
        v.from + 16 <= p <= v.from + v.chunk,
        v.cells[index_of(v.cells, v.from, p)].size > 16 ==> p < v.from + v.chunk,
        p % 16 == 0,
        p != 0,
{
    let k = index_of(v.cells, v.from, p);
    lemma_tiles_within(v.cells, k);
}

/// What a handle anchors lies in the active half, after any number of
/// collections: being in order between collections includes it.
pub proof fn lemma_handle_in_half(v: GcView, key: DefaultKey)
    requires
        idle_ok(v),
        v.handles.contains_key(key),
    ensures
        v.from + 16 <= v.handles[key] <= v.from + v.chunk,
        v.cells[index_of(v.cells, v.from, v.handles[key] as int)].size > 16 ==> v.handles[key]
            < v.from + v.chunk,
        v.handles[key] as int % 16 == 0,
{
    lemma_payload_in_half(v, v.handles[key] as int);
}

/// A cell takes its payload, a header, and what rounds the sum up to a
/// multiple of 16: an empty payload gives the smallest cell, of 16 bytes.
pub proof fn lemma_cell_size(raw: int)
    requires
        0 <= raw,
    ensures
        cell_size_for(0) == 16,
        cell_size_for(raw) % 16 == 0,
        raw + 16 <= cell_size_for(raw) < raw + 32,
{
}

/// A request for a cell that fits behind the cursor is granted at once, at
/// the cursor, without a collection: so is one for all the room that is left.
pub proof fn lemma_alloc_fits(
    v0: GcView,
    v1: GcView,
    at: Option<int>,
    vt: usize,
    need: int,
    t: Layout,
)
    requires
        alloc_result(v0, v1, at, vt, need, t),
        need <= v0.chunk - v0.cursor,
    ensures
        at == Some(v0.from + v0.cursor + 16),
        v1 == allocated(v0, vt, need),
        v1.gc_count == v0.gc_count,
{
    let mid = choose|mid: GcView| #[trigger] alloc_via(v0, mid, v1, at, vt, need, t);
}

/// A request for a cell that does not fit behind the cursor makes one
/// collection run, and is granted exactly if the cell fits behind what the
/// handles reach.
pub proof fn lemma_alloc_full(
    v0: GcView,
    v1: GcView,
    at: Option<int>,
    vt: usize,
    need: int,
    t: Layout,
)
    requires
        alloc_result(v0, v1, at, vt, need, t),
        need > v0.chunk - v0.cursor,
    ensures
        v1.gc_count == v0.gc_count + 1,
        at.is_some() <==> need <= v0.chunk - live_before(v0, t, v0.cells.len() as int),
{
    let mid = choose|mid: GcView| #[trigger] alloc_via(v0, mid, v1, at, vt, need, t);
}

/// Releasing a handle just acquired leaves the handles as they were: what
/// the next collection keeps is then what the other handles reach.
pub proof fn lemma_release_undoes_acquire(handles: Map<DefaultKey, usize>, key: DefaultKey, p: usize)
    requires
        !handles.contains_key(key),
    ensures
        handles.insert(key, p).remove(key) == handles,
{
    assert(handles.insert(key, p).remove(key) =~= handles);
}

/// A collection keeps a cell exactly if a handle reaches it.
pub proof fn lemma_kept_iff_reachable(v0: GcView, v1: GcView, t: Layout, k: int)
    requires
        collected(v0, v1, t),
        0 <= k < v0.cells.len(),
    ensures
        v1.fwd.contains_key(payload(v0.from, v0.cells[k])) <==> reachable(v0, t, k),
        reachable(v0, t, k) ==> kept(v0, v1, t, k),
{
}


/// The cell that `key` anchors is a root, and so reachable.
pub proof fn lemma_root_reachable(v: GcView, t: Layout, key: DefaultKey)
    requires
        idle_ok(v),
        v.handles.contains_key(key),
    ensures
        0 <= index_of(v.cells, v.from, v.handles[key] as int) < v.cells.len(),
        payload(v.from, v.cells[index_of(v.cells, v.from, v.handles[key] as int)])
            == v.handles[key],
        reachable(v, t, index_of(v.cells, v.from, v.handles[key] as int)),
{
    let k = index_of(v.cells, v.from, v.handles[key] as int);
    assert(is_payload(v.cells, v.from, v.handles[key] as int));
    assert(is_root(v, k));
    assert(reach_in(v, t, k, 0));
}

/// What a handle anchors stays through a collection: afterwards the handle
/// gives the address that the payload moved to, and there the payload holds
/// what it held, byte for byte, but for its managed pointers, which point to
/// where their targets moved.
pub proof fn lemma_handle_kept(v0: GcView, v1: GcView, t: Layout, key: DefaultKey)
    requires
        idle_ok(v0),
        collected(v0, v1, t),
        v0.handles.contains_key(key),
    ensures
        v1.handles.contains_key(key),
        v1.handles[key] == v1.fwd[v0.handles[key] as int],
        kept(v0, v1, t, index_of(v0.cells, v0.from, v0.handles[key] as int)),
{
    lemma_root_reachable(v0, t, key);
    assert(v1.handles.dom().contains(key));
}

/// A kept payload without managed pointers is, after the collection, byte
/// for byte what it was.
pub proof fn lemma_plain_payload_kept(v0: GcView, v1: GcView, t: Layout, k: int, x: int)
    requires
        collected(v0, v1, t),
        0 <= k < v0.cells.len(),
        reachable(v0, t, k),
        cell_slots(t, v0.cells[k]).len() == 0,
        0 <= x < v0.cells[k].size - 16,
    ensures
        v1.mem[v1.fwd[payload(v0.from, v0.cells[k])] + x] == v0.mem[payload(v0.from, v0.cells[k])
            + x],
{
    assert(kept(v0, v1, t, k));
    let p_old = payload(v0.from, v0.cells[k]);
    let p_new = v1.fwd[p_old];
    let y = p_new + x;
    assert(!crate::relocating::slot_byte(p_new, cell_slots(t, v0.cells[k]), 0, y));
    assert(v1.mem[y] == v0.mem[y - p_new + p_old]);
}

/// The bytes of the reachable cells before a cell grow with the cell's index,
/// by the size of every reachable cell passed.
pub proof fn lemma_live_grows(v: GcView, t: Layout, i: int, j: int)
    requires
        tiles(v.cells),
        0 <= i <= j <= v.cells.len(),
    ensures
        live_before(v, t, i) <= live_before(v, t, j),
        i < j && reachable(v, t, i) ==> live_before(v, t, i) + v.cells[i].size <= live_before(
            v,
            t,
            j,
        ),
    decreases j - i,
{
    if i < j {
        lemma_live_grows(v, t, i, j - 1);
        assert(crate::model::cell_ok(v.cells[j - 1]));
        assert(live_before(v, t, j) == live_before(v, t, j - 1) + if reachable(v, t, j - 1) {
            v.cells[j - 1].size
        } else {
            0
        });
    }
}

/// Two reachable cells that a collection moved to the same place are one
/// cell.
pub proof fn lemma_fwd_injective(v0: GcView, v1: GcView, t: Layout, k1: int, k2: int)
    requires
        tiles(v0.cells),
        collected(v0, v1, t),
        0 <= k1 < v0.cells.len(),
        0 <= k2 < v0.cells.len(),
        reachable(v0, t, k1),
        reachable(v0, t, k2),
        v1.fwd[payload(v0.from, v0.cells[k1])] == v1.fwd[payload(v0.from, v0.cells[k2])],
    ensures
        k1 == k2,
{
    assert(kept(v0, v1, t, k1));
    assert(kept(v0, v1, t, k2));
    assert(crate::model::cell_ok(v0.cells[k1]));
    assert(crate::model::cell_ok(v0.cells[k2]));
    if k1 < k2 {
        lemma_live_grows(v0, t, k1, k2);
    } else if k2 < k1 {
        lemma_live_grows(v0, t, k2, k1);
    }
}

/// The index in `v1` of the cell that the reachable cell `k` of `v0` moved
/// to.
pub open spec fn moved_index(v0: GcView, v1: GcView, k: int) -> int {
    index_of(v1.cells, v1.from, v1.fwd[payload(v0.from, v0.cells[k])])
}

/// A collection keeps the shape of what is reachable: between two reachable
/// cells, one holds a managed pointer to the other afterwards exactly if it
/// did before. A cycle of managed pointers is a cycle afterwards, and a cell
/// that points to itself points to itself at its new address.
pub proof fn lemma_edges_kept(v0: GcView, v1: GcView, t: Layout, i: int, k: int)
    requires
        idle_ok(v0),
        pointers_valid(v0, t),
        collected(v0, v1, t),
        0 <= i < v0.cells.len(),
        0 <= k < v0.cells.len(),
        reachable(v0, t, i),
        reachable(v0, t, k),
    ensures
        0 <= moved_index(v0, v1, i) < v1.cells.len(),
        0 <= moved_index(v0, v1, k) < v1.cells.len(),
        edge(v0, t, i, k) <==> edge(v1, t, moved_index(v0, v1, i), moved_index(v0, v1, k)),
{
    assert(kept(v0, v1, t, i));
    assert(kept(v0, v1, t, k));
    let ri = moved_index(v0, v1, i);
    let rk = moved_index(v0, v1, k);
    let pi = payload(v0.from, v0.cells[i]);
    let pk = payload(v0.from, v0.cells[k]);
    let slots = cell_slots(t, v0.cells[i]);
    assert(cell_slots(t, v1.cells[ri]) == slots);
    assert(payload(v1.from, v1.cells[ri]) == v1.fwd[pi]);
    assert(payload(v1.from, v1.cells[rk]) == v1.fwd[pk]);
    lemma_tiles_within(v0.cells, k);
    lemma_tiles_within(v1.cells, rk);
    if edge(v0, t, i, k) {
        let j = choose|j: int|
            0 <= j < cell_slots(t, v0.cells[i]).len() && #[trigger] child(
                v0.mem,
                payload(v0.from, v0.cells[i]),
                cell_slots(t, v0.cells[i])[j],
            ) == payload(v0.from, v0.cells[k]);
        assert(child(v1.mem, v1.fwd[pi], slots[j]) == forwarded(v1.fwd, child(v0.mem, pi, slots[j])));
        assert(child(v1.mem, payload(v1.from, v1.cells[ri]), cell_slots(t, v1.cells[ri])[j])
            == payload(v1.from, v1.cells[rk]));
        assert(edge(v1, t, ri, rk));
    }
    if edge(v1, t, ri, rk) {
        let j = choose|j: int|
            0 <= j < cell_slots(t, v1.cells[ri]).len() && #[trigger] child(
                v1.mem,
                payload(v1.from, v1.cells[ri]),
                cell_slots(t, v1.cells[ri])[j],
            ) == payload(v1.from, v1.cells[rk]);
        let w = child(v0.mem, payload(v0.from, v0.cells[i]), cell_slots(t, v0.cells[i])[j]);
        assert(child(v1.mem, v1.fwd[pi], slots[j]) == forwarded(v1.fwd, child(v0.mem, pi, slots[j])));
        assert(w != 0);
        assert(is_payload(v0.cells, v0.from, w));
        let k2 = index_of(v0.cells, v0.from, w);
        assert(edge(v0, t, i, k2));
        crate::model::lemma_reach_step(v0, t, i, k2);
        lemma_fwd_injective(v0, v1, t, k2, k);
    }
}

/// What is reachable before a collection is reachable after it, where it
/// moved to.
pub proof fn lemma_image_reachable(v0: GcView, v1: GcView, t: Layout, k: int, n: nat)
    requires
        idle_ok(v0),
        pointers_valid(v0, t),
        collected(v0, v1, t),
        reach_in(v0, t, k, n),
    ensures
        0 <= moved_index(v0, v1, k) < v1.cells.len(),
        reachable(v1, t, moved_index(v0, v1, k)),
    decreases n,
{
    assert(reachable(v0, t, k));
    assert(kept(v0, v1, t, k));
    let rk = moved_index(v0, v1, k);
    if is_root(v0, k) {
        let key = choose|key: DefaultKey| #[trigger]
            v0.handles.contains_key(key) && v0.handles[key] == payload(v0.from, v0.cells[k]);
        assert(v1.handles.dom().contains(key));
        assert(v1.handles.contains_key(key) && v1.handles[key] == payload(
            v1.from,
            v1.cells[rk],
        ));
        assert(is_root(v1, rk));
        assert(reach_in(v1, t, rk, 0));
    } else {
        let i = choose|i: int|
            0 <= i < v0.cells.len() && reach_in(v0, t, i, (n - 1) as nat) && #[trigger] edge(
                v0,
                t,
                i,
                k,
            );
        lemma_image_reachable(v0, v1, t, i, (n - 1) as nat);
        assert(reachable(v0, t, i));
        lemma_edges_kept(v0, v1, t, i, k);
        crate::model::lemma_reach_step(v1, t, moved_index(v0, v1, i), rk);
    }
}

/// After a collection every cell is reachable.
pub proof fn lemma_all_reachable(v0: GcView, v1: GcView, t: Layout, r: int)
    requires
        idle_ok(v0),
        pointers_valid(v0, t),
        collected(v0, v1, t),
        0 <= r < v1.cells.len(),
    ensures
        reachable(v1, t, r),
{
    assert(has_source(v0, v1, t, r));
    let k = choose|k: int|
        0 <= k < v0.cells.len() && reachable(v0, t, k) && #[trigger] image_of(v0, v1, k, r);
    let n = choose|n: nat| reach_in(v0, t, k, n);
    lemma_image_reachable(v0, v1, t, k, n);
    lemma_index_of(v1.cells, v1.from, r);
}

/// Where every cell is reachable, the reachable cells take what the cells
/// take.
pub proof fn lemma_live_all(v: GcView, t: Layout, i: int)
    requires
        base_ok(v),
        0 <= i <= v.cells.len(),
        forall|k: int| 0 <= k < v.cells.len() ==> reachable(v, t, k),
    ensures
        live_before(v, t, i) == crate::copying::bound(v, i),
    decreases i,
{
    if i > 0 {
        lemma_live_all(v, t, i - 1);
        if i < v.cells.len() {
            assert(abuts(v.cells, i - 1));
        }
    } else if v.cells.len() > 0 {
        assert(v.cells[0].start == 0);
    }
}

/// A collection right after a collection moves every cell and frees none: it
/// leaves the cursor where it was, and counts as one more collection.
pub proof fn lemma_collect_twice(v0: GcView, v1: GcView, v2: GcView, t: Layout)
    requires
        idle_ok(v0),
        pointers_valid(v0, t),
        collected(v0, v1, t),
        collected(v1, v2, t),
    ensures
        v2.cursor == v1.cursor,
        v2.gc_count == v1.gc_count + 1,
        v2.cells.len() == v1.cells.len(),
{
    assert forall|k: int| 0 <= k < v1.cells.len() implies reachable(v1, t, k) by {
        lemma_all_reachable(v0, v1, t, k);
    }
    lemma_live_all(v1, t, v1.cells.len() as int);
    lemma_cells_counted(v1, v2, t);
}

/// A collection keeps as many cells as are reachable when all are.
proof fn lemma_cells_counted(v1: GcView, v2: GcView, t: Layout)
    requires
        idle_ok(v1),
        collected(v1, v2, t),
        forall|k: int| 0 <= k < v1.cells.len() ==> reachable(v1, t, k),
    ensures
        v2.cells.len() == v1.cells.len(),
{
    // Each cell of `v1` has its own cell in `v2`, and each cell of `v2` comes from one.
    let n1 = v1.cells.len() as int;
    let n2 = v2.cells.len() as int;
    let f = |k: int| moved_index(v1, v2, k);
    assert forall|k: int| 0 <= k < n1 implies 0 <= #[trigger] f(k) < n2 by {
        assert(kept(v1, v2, t, k));
    }
    assert forall|k1: int, k2: int| 0 <= k1 < k2 < n1 implies #[trigger] f(k1) < #[trigger] f(
        k2,
    ) by {
        assert(kept(v1, v2, t, k1));
        assert(kept(v1, v2, t, k2));
        lemma_live_grows(v1, t, k1, k2);
        assert(crate::model::cell_ok(v1.cells[k1]));
        let r1 = f(k1);
        let r2 = f(k2);
        if r1 > r2 {
            lemma_tiles_ordered(v2.cells, r2, r1);
        }
    }
    lemma_increasing_bound(f, n1, n2);
    let g = |r: int|
        choose|k: int|
            0 <= k < v1.cells.len() && reachable(v1, t, k) && #[trigger] image_of(v1, v2, k, r);
    assert forall|r: int| 0 <= r < n2 implies 0 <= #[trigger] g(r) < n1 by {
        assert(has_source(v1, v2, t, r));
    }
    assert forall|r1: int, r2: int| 0 <= r1 < r2 < n2 implies #[trigger] g(r1) < #[trigger] g(
        r2,
    ) by {
        assert(has_source(v1, v2, t, r1));
        assert(has_source(v1, v2, t, r2));
        let k1 = g(r1);
        let k2 = g(r2);
        assert(image_of(v1, v2, k1, r1));
        assert(image_of(v1, v2, k2, r2));
        assert(kept(v1, v2, t, k1));
        assert(kept(v1, v2, t, k2));
        lemma_tiles_ordered(v2.cells, r1, r2);
        if k2 <= k1 {
            lemma_live_grows(v1, t, k2, k1);
        }
    }
    lemma_increasing_bound(g, n2, n1);
}

/// A strictly increasing map from the first `n` numbers into the first `m`
/// needs `n <= m`.
proof fn lemma_increasing_bound(f: spec_fn(int) -> int, n: int, m: int)
    requires
        0 <= n,
        0 <= m,
        forall|k: int| 0 <= k < n ==> 0 <= #[trigger] f(k) < m,
        forall|k1: int, k2: int| 0 <= k1 < k2 < n ==> #[trigger] f(k1) < #[trigger] f(k2),
    ensures
        n <= m,
    decreases n,
{
    if n > 0 {
        lemma_increasing_at_least(f, n, n - 1);
        assert(0 <= f(n - 1) < m);
    }
}

/// A strictly increasing map sends `k` to at least `k`.
proof fn lemma_increasing_at_least(f: spec_fn(int) -> int, n: int, k: int)
    requires
        0 <= k < n,
        forall|k: int| 0 <= k < n ==> 0 <= #[trigger] f(k),
        forall|k1: int, k2: int| 0 <= k1 < k2 < n ==> #[trigger] f(k1) < #[trigger] f(k2),
    ensures
        k <= f(k),
    decreases k,
{
    if k > 0 {
        lemma_increasing_at_least(f, n, k - 1);
        assert(f(k - 1) < f(k));
    }
}

/// The managed pointers are in order exactly if those of every cell are.
pub proof fn lemma_settled(v: GcView, t: Layout)
    ensures
        pointers_valid(v, t) <==> (forall|i: int|
            0 <= i < v.cells.len() ==> #[trigger] settled(v, t, i)),
{
    if pointers_valid(v, t) {
        assert forall|i: int| 0 <= i < v.cells.len() implies #[trigger] settled(v, t, i) by {
            assert forall|j: int| 0 <= j < cell_slots(t, v.cells[i]).len() implies {
                let w = #[trigger] child(
                    v.mem,
                    payload(v.from, v.cells[i]),
                    cell_slots(t, v.cells[i])[j],
                );
                w == 0 || is_payload(v.cells, v.from, w)
            } by {}
        }
    }
    if forall|i: int| 0 <= i < v.cells.len() ==> #[trigger] settled(v, t, i) {
        assert forall|i: int, j: int|
            0 <= i < v.cells.len() && 0 <= j < cell_slots(t, v.cells[i]).len() implies {
            let w = #[trigger] child(v.mem, payload(v.from, v.cells[i]), cell_slots(t, v.cells[i])[j]);
            w == 0 || is_payload(v.cells, v.from, w)
        } by {
            assert(settled(v, t, i));
        }
    }
}

/// A word stored at word `s` of the payload of cell `k` leaves the managed
/// pointers of every other cell in order, and those of cell `k` too if the
/// word is no managed pointer, is null, or is the address of a payload.
pub proof fn lemma_store_keeps_settled(v: GcView, t: Layout, k: int, s: int, w: int, i: int)
    requires
        base_ok(v),
        slots_ok(t),
        0 <= k < v.cells.len(),
        0 <= i < v.cells.len(),
        0 <= s,
        8 * s + 8 <= v.cells[k].size - 16,
        0 <= w < crate::mem::word_limit(),
        settled(v, t, i),
        i == k && cell_slots(t, v.cells[k]).contains(s) ==> w == 0 || is_payload(v.cells, v.from, w),
    ensures
        settled(
            GcView { mem: store_word(v.mem, payload(v.from, v.cells[k]) + 8 * s, w), ..v },
            t,
            i,
        ),
{
    broadcast use crate::mem::group_words;

    let x = payload(v.from, v.cells[k]) + 8 * s;
    let v1 = GcView { mem: store_word(v.mem, x, w), ..v };
    let slots = cell_slots(t, v.cells[i]);
    lemma_tiles_within(v.cells, k);
    lemma_tiles_within(v.cells, i);
    assert forall|j: int| 0 <= j < slots.len() implies {
        let c = #[trigger] child(v1.mem, payload(v1.from, v1.cells[i]), cell_slots(t, v1.cells[i])[j]);
        c == 0 || is_payload(v1.cells, v1.from, c)
    } by {
        let c0 = child(v.mem, payload(v.from, v.cells[i]), cell_slots(t, v.cells[i])[j]);
        assert(c0 == 0 || is_payload(v.cells, v.from, c0));
        assert(0 <= slots[j] && 8 * slots[j] + 8 <= v.cells[i].size - 16);
        let y = payload(v.from, v.cells[i]) + 8 * slots[j];
        if i == k {
            if slots[j] == s {
                assert(slots.contains(s));
                assert(word_at(v1.mem, y) == w);
            } else {
                assert(word_at(v1.mem, y) == word_at(v.mem, y));
            }
        } else {
            if i < k {
                lemma_tiles_ordered(v.cells, i, k);
            } else {
                lemma_tiles_ordered(v.cells, k, i);
            }
            assert(word_at(v1.mem, y) == word_at(v.mem, y));
        }
    }
}

} // verus!
