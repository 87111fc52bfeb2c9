//! The first part of a collection as mathematics: what holds while the cells
//! that the handles reach are marked.

use crate::mem::{store_word, word_at};
use crate::model::{
    Cell, GcView, Layout, base_ok, cell_slots, child, edge, extent, free_tail, handles_valid,
    head_word, heads_plain, index_of, is_payload, is_root, lemma_index_of, lemma_payload_bounds,
    lemma_payload_word_apart, lemma_reach_step, lemma_tiles_ordered, lemma_tiles_within, payload,
    pointers_valid, reach_in, reachable, size_word, sizes_match, slots_ok, tiles,
};
use slotmap::DefaultKey;
use vstd::prelude::*;

verus! {

/// Every cell's header holds the cell's descriptor, marked or not.
pub open spec fn heads_markable(mem: Seq<u8>, base: int, cells: Seq<Cell>) -> bool {
    forall|i: int|
        0 <= i < cells.len() ==> {
            ||| head_word(mem, base, #[trigger] cells[i]) == cells[i].desc
            ||| head_word(mem, base, cells[i]) == cells[i].desc + 1
        }
}

/// Every header on the work list is the header of a cell of the active half.
pub open spec fn work_valid(v: GcView) -> bool {
    forall|k: int|
        0 <= k < v.work.len() ==> is_payload(v.cells, v.from, #[trigger] v.work[k] + 16)
}

/// What holds while a collection marks.
pub open spec fn mark_ok(v: GcView) -> bool {
    &&& base_ok(v)
    &&& v.in_gc
    &&& v.to_cells.len() == 0
    &&& v.fwd == Map::<int, int>::empty()
    &&& heads_markable(v.mem, v.from, v.cells)
    &&& handles_valid(v)
    &&& work_valid(v)
}

/// The headers of the payloads that the first `n` of the named words of the
/// payload at `p` point to, in order; null words give none.
pub open spec fn pushed(mem: Seq<u8>, p: int, slots: Seq<int>, n: int) -> Seq<usize>
    decreases n,
{
    if n <= 0 {
        Seq::empty()
    } else {
        let rest = pushed(mem, p, slots, n - 1);
        let w = child(mem, p, slots[n - 1]);
        if w == 0 {
            rest
        } else {
            rest.push((w - 16) as usize)
        }
    }
}

/// The slots of the cell whose payload is at `p`, in the active half.
pub open spec fn slots_at(v: GcView, t: Layout, p: int) -> Seq<int> {
    cell_slots(t, v.cells[index_of(v.cells, v.from, p)])
}

/// The state after tracing the payload at `p`: the headers of its children
/// are on the work list, and nothing else has changed.
pub open spec fn traced(v: GcView, t: Layout, p: int) -> GcView {
    GcView {
        work: v.work + pushed(v.mem, p, slots_at(v, t, p), slots_at(v, t, p).len() as int),
        ..v
    }
}

/// What `pushed` holds: the header of every non-null child among the first
/// `n`, and nothing else.
pub(crate) proof fn lemma_pushed(mem: Seq<u8>, p: int, slots: Seq<int>, n: int)
    requires
        0 <= n <= slots.len(),
        forall|j: int|
            0 <= j < n ==> #[trigger] child(mem, p, slots[j]) == 0 || 16 <= child(mem, p, slots[j])
                <= usize::MAX,
    ensures
        forall|j: int|
            0 <= j < n && #[trigger] child(mem, p, slots[j]) != 0 ==> listed(
                pushed(mem, p, slots, n),
                child(mem, p, slots[j]),
            ),
        forall|k: int|
            0 <= k < pushed(mem, p, slots, n).len() ==> exists|j: int|
                0 <= j < n && #[trigger] child(mem, p, slots[j]) != 0 && #[trigger] pushed(
                    mem,
                    p,
                    slots,
                    n,
                )[k] + 16 == child(mem, p, slots[j]),
    decreases n,
{
    if n > 0 {
        lemma_pushed(mem, p, slots, n - 1);
        let rest = pushed(mem, p, slots, n - 1);
        let cur = pushed(mem, p, slots, n);
        let w = child(mem, p, slots[n - 1]);
        assert forall|j: int| 0 <= j < n && #[trigger] child(mem, p, slots[j]) != 0 implies listed(
            cur,
            child(mem, p, slots[j]),
        ) by {
            if j < n - 1 {
                assert(listed(rest, child(mem, p, slots[j])));
                let q = choose|q: int|
                    0 <= q < rest.len() && #[trigger] rest[q] + 16 == child(mem, p, slots[j]);
                assert(cur[q] == rest[q]);
            } else {
                assert(cur[cur.len() - 1] + 16 == w);
            }
        }
        assert forall|k: int| 0 <= k < cur.len() implies exists|j: int|
            0 <= j < n && #[trigger] child(mem, p, slots[j]) != 0 && #[trigger] cur[k] + 16
                == child(mem, p, slots[j]) by {
            if k < rest.len() {
                assert(cur[k] == rest[k]);
                let j = choose|j: int|
                    0 <= j < n - 1 && #[trigger] child(mem, p, slots[j]) != 0 && #[trigger] rest[k]
                        + 16 == child(mem, p, slots[j]);
                assert(0 <= j < n && child(mem, p, slots[j]) != 0 && cur[k] + 16 == child(
                    mem,
                    p,
                    slots[j],
                ));
            } else {
                assert(0 <= n - 1 < n && child(mem, p, slots[n - 1]) != 0 && cur[k] + 16 == child(
                    mem,
                    p,
                    slots[n - 1],
                ));
            }
        }
    }
}

/// Whether the header in front of the payload at `p` carries the mark bit.
pub open spec fn marked_at(mem: Seq<u8>, p: int) -> bool {
    word_at(mem, p - 16) % 2 == 1
}

/// The header of the payload at `p` is on the work list.
pub open spec fn listed(work: Seq<usize>, p: int) -> bool {
    exists|q: int| 0 <= q < work.len() && #[trigger] work[q] + 16 == p
}

/// The header of every root is on the work list.
pub open spec fn roots_listed(v: GcView) -> bool {
    forall|k: DefaultKey| #[trigger]
        v.handles.contains_key(k) ==> listed(v.work, v.handles[k] as int)
}

/// Every header on the work list is the header of a root.
pub open spec fn work_is_roots(v: GcView) -> bool {
    forall|i: int|
        0 <= i < v.work.len() ==> exists|k: DefaultKey| #[trigger]
            v.handles.contains_key(k) && v.handles[k] == #[trigger] v.work[i] + 16
}

/// Every root is marked or has its header on the work list.
pub open spec fn roots_held(v: GcView) -> bool {
    forall|k: DefaultKey| #[trigger]
        v.handles.contains_key(k) ==> marked_at(v.mem, v.handles[k] as int) || listed(
            v.work,
            v.handles[k] as int,
        )
}

/// Every child of a marked cell is marked or has its header on the work list.
pub open spec fn children_held(v: GcView, t: Layout) -> bool {
    forall|i: int, j: int|
        0 <= i < v.cells.len() && 0 <= j < cell_slots(t, v.cells[i]).len() && marked_at(
            v.mem,
            payload(v.from, v.cells[i]),
        ) ==> {
            let w = #[trigger] child(v.mem, payload(v.from, v.cells[i]), cell_slots(t, v.cells[i])[j]);
            w == 0 || marked_at(v.mem, w) || listed(v.work, w)
        }
}

/// What storing the word `w` over the first header word of cell `i` changes,
/// and what it leaves.
pub(crate) proof fn lemma_store_head(mem: Seq<u8>, base: int, cells: Seq<Cell>, i: int, w: int)
    requires
        tiles(cells),
        0 <= i < cells.len(),
        0 <= base,
        base + extent(cells) <= mem.len(),
        0 <= w < crate::mem::word_limit(),
    ensures
        store_word(mem, base + cells[i].start, w).len() == mem.len(),
        head_word(store_word(mem, base + cells[i].start, w), base, cells[i]) == w,
        forall|k: int|
            0 <= k < cells.len() && k != i ==> head_word(
                store_word(mem, base + cells[i].start, w),
                base,
                #[trigger] cells[k],
            ) == head_word(mem, base, cells[k]),
        forall|k: int|
            0 <= k < cells.len() ==> size_word(
                store_word(mem, base + cells[i].start, w),
                base,
                #[trigger] cells[k],
            ) == size_word(mem, base, cells[k]),
        forall|x: int|
            0 <= x && x + 8 <= mem.len() && (x + 8 <= base + cells[i].start || base
                + cells[i].start + 8 <= x) ==> #[trigger] word_at(
                store_word(mem, base + cells[i].start, w),
                x,
            ) == word_at(mem, x),
{
    broadcast use crate::mem::group_words;

    let m1 = store_word(mem, base + cells[i].start, w);
    lemma_tiles_within(cells, i);
    assert forall|k: int| 0 <= k < cells.len() implies size_word(m1, base, #[trigger] cells[k])
        == size_word(mem, base, cells[k]) && (k != i ==> head_word(m1, base, cells[k])
        == head_word(mem, base, cells[k])) by {
        lemma_tiles_within(cells, k);
        if k < i {
            lemma_tiles_ordered(cells, k, i);
        } else if i < k {
            lemma_tiles_ordered(cells, i, k);
        }
    }
}

/// The two memories differ at most in the first header words of the cells.
pub open spec fn same_but_heads(m0: Seq<u8>, m1: Seq<u8>, base: int, cells: Seq<Cell>) -> bool {
    &&& m0.len() == m1.len()
    &&& forall|x: int|
        0 <= x < m0.len() && !head_byte(cells, base, x) ==> #[trigger] m1[x] == m0[x]
}

/// `x` is the address of a byte of the first header word of a cell.
pub open spec fn head_byte(cells: Seq<Cell>, base: int, x: int) -> bool {
    exists|i: int| 0 <= i < cells.len() && base + (#[trigger] cells[i]).start <= x < base + cells[i].start + 8
}

/// Memories that differ in first header words only agree on every word of
/// every payload.
pub(crate) proof fn lemma_same_payload_word(
    m0: Seq<u8>,
    m1: Seq<u8>,
    base: int,
    cells: Seq<Cell>,
    k: int,
    x: int,
)
    requires
        tiles(cells),
        same_but_heads(m0, m1, base, cells),
        0 <= base,
        base + extent(cells) <= m0.len(),
        0 <= k < cells.len(),
        payload(base, cells[k]) <= x,
        x + 8 <= base + cells[k].start + cells[k].size,
    ensures
        word_at(m1, x) == word_at(m0, x),
{
    lemma_tiles_within(cells, k);
    assert forall|y: int| x <= y < x + 8 implies m1[y] == m0[y] by {
        if head_byte(cells, base, y) {
            let i = choose|i: int|
                0 <= i < cells.len() && base + (#[trigger] cells[i]).start <= y < base
                    + cells[i].start + 8;
            lemma_payload_word_apart(cells, base, k, x, i);
        }
    }
    crate::mem::lemma_word_agree(m1, m0, x);
}

/// Storing over the first header word of a cell changes first header words
/// only.
pub(crate) proof fn lemma_store_head_same(
    m0: Seq<u8>,
    m: Seq<u8>,
    base: int,
    cells: Seq<Cell>,
    i: int,
    w: int,
)
    requires
        same_but_heads(m0, m, base, cells),
        0 <= i < cells.len(),
    ensures
        same_but_heads(m0, store_word(m, base + cells[i].start, w), base, cells),
{
    broadcast use crate::mem::group_words;

    let m1 = store_word(m, base + cells[i].start, w);
    assert forall|x: int| 0 <= x < m0.len() && !head_byte(cells, base, x) implies #[trigger] m1[x]
        == m0[x] by {
        if base + cells[i].start <= x < base + cells[i].start + 8 {
            assert(head_byte(cells, base, x));
        } else {
            assert(m1[x] == m[x]);
            assert(m[x] == m0[x]);
        }
    }
}

/// The children that the pointers of the active half's cells hold are the
/// same in both memories.
pub open spec fn same_children(m0: Seq<u8>, m1: Seq<u8>, v: GcView, t: Layout) -> bool {
    forall|i: int, j: int|
        0 <= i < v.cells.len() && 0 <= j < cell_slots(t, v.cells[i]).len() ==> #[trigger] child(
            m1,
            payload(v.from, v.cells[i]),
            cell_slots(t, v.cells[i])[j],
        ) == child(m0, payload(v.from, v.cells[i]), cell_slots(t, v.cells[i])[j])
}

/// Memories that differ in first header words only hold the same children.
pub(crate) proof fn lemma_same_children(m0: Seq<u8>, m1: Seq<u8>, v: GcView, t: Layout)
    requires
        base_ok(v),
        slots_ok(t),
        same_but_heads(m0, m1, v.from, v.cells),
        m0.len() == v.mem.len(),
    ensures
        same_children(m0, m1, v, t),
{
    assert forall|i: int, j: int|
        0 <= i < v.cells.len() && 0 <= j < cell_slots(t, v.cells[i]).len() implies #[trigger] child(
        m1,
        payload(v.from, v.cells[i]),
        cell_slots(t, v.cells[i])[j],
    ) == child(m0, payload(v.from, v.cells[i]), cell_slots(t, v.cells[i])[j]) by {
        let s = cell_slots(t, v.cells[i])[j];
        assert(0 <= s && 8 * s + 8 <= v.cells[i].size - 16);
        lemma_same_payload_word(m0, m1, v.from, v.cells, i, payload(v.from, v.cells[i]) + 8 * s);
    }
}

/// Every marked cell is reachable in `v0`.
pub open spec fn marks_sound(v0: GcView, v: GcView, t: Layout) -> bool {
    forall|k: int|
        0 <= k < v.cells.len() && marked_at(v.mem, #[trigger] payload(v.from, v.cells[k]))
            ==> reachable(v0, t, k)
}

/// Every header on the work list is the header of a cell reachable in `v0`.
pub open spec fn work_sound(v0: GcView, v: GcView, t: Layout) -> bool {
    forall|q: int|
        0 <= q < v.work.len() ==> reachable(
            v0,
            t,
            index_of(v0.cells, v0.from, #[trigger] v.work[q] + 16),
        )
}

/// What holds of the state `v` while the collection that began in `v0` marks.
pub open spec fn marking(v0: GcView, v: GcView, t: Layout) -> bool {
    &&& mark_ok(v)
    &&& v == (GcView { mem: v.mem, work: v.work, ..v0 })
    &&& same_but_heads(v0.mem, v.mem, v.from, v.cells)
    &&& children_held(v, t)
    &&& roots_held(v)
    &&& marks_sound(v0, v, t)
    &&& work_sound(v0, v, t)
}

/// The cells that are not marked.
pub open spec fn unmarked(v: GcView) -> Set<int> {
    Set::new(
        |k: int| 0 <= k < v.cells.len() && !marked_at(v.mem, payload(v.from, v.cells[k])),
    )
}

/// There are finitely many cells without a mark.
pub(crate) proof fn lemma_unmarked_finite(v: GcView)
    ensures
        unmarked(v).finite(),
{
    let n = v.cells.len() as int;
    vstd::set_lib::lemma_int_range(0, n);
    assert(unmarked(v).subset_of(vstd::set_lib::set_int_range(0, n)));
    vstd::set_lib::lemma_set_subset_finite(vstd::set_lib::set_int_range(0, n), unmarked(v));
}

/// Marking begins with the roots on the work list and no cell marked.
pub(crate) proof fn lemma_marking_start(v0: GcView, t: Layout)
    requires
        mark_ok(v0),
        heads_plain(v0.mem, v0.from, v0.cells),
        roots_listed(v0),
        work_is_roots(v0),
    ensures
        marking(v0, v0, t),
{
    let v = v0;
    assert forall|k: int| 0 <= k < v.cells.len() implies !marked_at(
        v.mem,
        #[trigger] payload(v.from, v.cells[k]),
    ) by {
        assert(head_word(v.mem, v.from, v.cells[k]) == v.cells[k].desc);
    }
    assert forall|i: int, j: int|
        0 <= i < v.cells.len() && 0 <= j < cell_slots(t, v.cells[i]).len() && marked_at(
            v.mem,
            payload(v.from, v.cells[i]),
        ) implies {
        let w = #[trigger] child(v.mem, payload(v.from, v.cells[i]), cell_slots(t, v.cells[i])[j]);
        w == 0 || marked_at(v.mem, w) || listed(v.work, w)
    } by {
        assert(!marked_at(v.mem, payload(v.from, v.cells[i])));
    }
    assert forall|q: int| 0 <= q < v.work.len() implies reachable(
        v0,
        t,
        index_of(v0.cells, v0.from, #[trigger] v.work[q] + 16),
    ) by {
        let key = choose|key: DefaultKey| #[trigger]
            v.handles.contains_key(key) && v.handles[key] == v.work[q] + 16;
        let p = v.work[q] + 16;
        assert(is_payload(v.cells, v.from, p));
        let k = index_of(v0.cells, v0.from, p);
        assert(is_root(v0, k));
        assert(reach_in(v0, t, k, 0));
    }
}

/// Taking the first header off a work list leaves every other payload listed.
pub(crate) proof fn lemma_drop_first_listed(s: Seq<usize>, p: int)
    requires
        s.len() > 0,
        listed(s, p),
        p != s[0] + 16,
    ensures
        listed(s.drop_first(), p),
{
    let q = choose|q: int| 0 <= q < s.len() && #[trigger] s[q] + 16 == p;
    assert(s.drop_first()[q - 1] + 16 == p);
}

/// The marking invariant outlasts taking an already marked header off the
/// work list.
pub(crate) proof fn lemma_marking_skip(v0: GcView, v: GcView, t: Layout)
    requires
        marking(v0, v, t),
        v.work.len() > 0,
        marked_at(v.mem, v.work[0] + 16),
    ensures
        marking(v0, GcView { work: v.work.drop_first(), ..v }, t),
{
    let v1 = GcView { work: v.work.drop_first(), ..v };
    assert forall|k: int| 0 <= k < v1.work.len() implies is_payload(
        v1.cells,
        v1.from,
        #[trigger] v1.work[k] + 16,
    ) by {
        assert(v1.work[k] == v.work[k + 1]);
    }
    assert forall|i: int, j: int|
        0 <= i < v1.cells.len() && 0 <= j < cell_slots(t, v1.cells[i]).len() && marked_at(
            v1.mem,
            payload(v1.from, v1.cells[i]),
        ) implies {
        let w = #[trigger] child(
            v1.mem,
            payload(v1.from, v1.cells[i]),
            cell_slots(t, v1.cells[i])[j],
        );
        w == 0 || marked_at(v1.mem, w) || listed(v1.work, w)
    } by {
        let w = child(v.mem, payload(v.from, v.cells[i]), cell_slots(t, v.cells[i])[j]);
        if w != 0 && !marked_at(v.mem, w) {
            assert(listed(v.work, w));
            if w != v.work[0] + 16 {
                lemma_drop_first_listed(v.work, w);
            }
        }
    }
    assert forall|k: DefaultKey| #[trigger] v1.handles.contains_key(k) implies marked_at(
        v1.mem,
        v1.handles[k] as int,
    ) || listed(v1.work, v1.handles[k] as int) by {
        if !marked_at(v.mem, v.handles[k] as int) {
            assert(listed(v.work, v.handles[k] as int));
            if v.handles[k] != v.work[0] + 16 {
                lemma_drop_first_listed(v.work, v.handles[k] as int);
            }
        }
    }
    assert forall|q: int| 0 <= q < v1.work.len() implies reachable(
        v0,
        t,
        index_of(v0.cells, v0.from, #[trigger] v1.work[q] + 16),
    ) by {
        assert(v1.work[q] == v.work[q + 1]);
    }
}

/// A payload listed in either part of a work list is listed in the whole.
pub(crate) proof fn lemma_listed_concat(a: Seq<usize>, b: Seq<usize>, p: int)
    requires
        listed(a, p) || listed(b, p),
    ensures
        listed(a + b, p),
{
    if listed(a, p) {
        let q = choose|q: int| 0 <= q < a.len() && #[trigger] a[q] + 16 == p;
        assert((a + b)[q] + 16 == p);
    } else {
        let q = choose|q: int| 0 <= q < b.len() && #[trigger] b[q] + 16 == p;
        assert((a + b)[a.len() + q] + 16 == p);
    }
}

/// The state after the header at the front of the work list, which is that of
/// the unmarked cell `i`, was taken off and marked.
pub open spec fn mark_stored(v: GcView, i: int) -> GcView {
    GcView {
        mem: store_word(v.mem, v.from + v.cells[i].start, v.cells[i].desc + 1),
        work: v.work.drop_first(),
        ..v
    }
}

/// Where the marks are after cell `i` was marked.
pub(crate) proof fn lemma_marks_after_store(v: GcView, i: int)
    requires
        mark_ok(v),
        0 <= i < v.cells.len(),
    ensures
        forall|k: int|
            0 <= k < v.cells.len() ==> marked_at(
                mark_stored(v, i).mem,
                #[trigger] payload(v.from, v.cells[k]),
            ) == (k == i || marked_at(v.mem, payload(v.from, v.cells[k]))),
        heads_markable(mark_stored(v, i).mem, v.from, v.cells),
        sizes_match(mark_stored(v, i).mem, v.from, v.cells),
        free_tail(mark_stored(v, i).mem, v.from, v.cursor, v.chunk),
        mark_stored(v, i).mem.len() == v.mem.len(),
{
    let w = v.cells[i].desc + 1;
    lemma_store_head(v.mem, v.from, v.cells, i, w);
    lemma_tiles_within(v.cells, i);
    let m1 = mark_stored(v, i).mem;
    assert forall|k: int| 0 <= k < v.cells.len() implies marked_at(
        m1,
        #[trigger] payload(v.from, v.cells[k]),
    ) == (k == i || marked_at(v.mem, payload(v.from, v.cells[k]))) by {
        assert(head_word(m1, v.from, v.cells[k]) == if k == i {
            w
        } else {
            head_word(v.mem, v.from, v.cells[k])
        });
    }
    assert forall|k: int| 0 <= k < v.cells.len() implies (head_word(
        m1,
        v.from,
        #[trigger] v.cells[k],
    ) == v.cells[k].desc || head_word(m1, v.from, v.cells[k]) == v.cells[k].desc + 1) by {
        assert(head_word(m1, v.from, v.cells[k]) == if k == i {
            w
        } else {
            head_word(v.mem, v.from, v.cells[k])
        });
    }
    if v.cursor < v.chunk {
        assert(word_at(m1, v.from + v.cursor) == word_at(v.mem, v.from + v.cursor));
        assert(word_at(m1, v.from + v.cursor + 8) == word_at(v.mem, v.from + v.cursor + 8));
    }
}

/// Pointers that are in order in `v0` are in order in every state that has
/// the same cells and differs from it in first header words only.
pub(crate) proof fn lemma_pointers_carry(v0: GcView, v: GcView, t: Layout)
    requires
        base_ok(v0),
        slots_ok(t),
        pointers_valid(v0, t),
        v.cells == v0.cells,
        v.from == v0.from,
        same_but_heads(v0.mem, v.mem, v0.from, v0.cells),
    ensures
        pointers_valid(v, t),
        same_children(v0.mem, v.mem, v0, t),
{
    lemma_same_children(v0.mem, v.mem, v0, t);
    assert forall|i: int, j: int|
        0 <= i < v.cells.len() && 0 <= j < cell_slots(t, v.cells[i]).len() implies {
        let w = #[trigger] child(v.mem, payload(v.from, v.cells[i]), cell_slots(t, v.cells[i])[j]);
        w == 0 || is_payload(v.cells, v.from, w)
    } by {
        let w0 = child(v0.mem, payload(v0.from, v0.cells[i]), cell_slots(t, v0.cells[i])[j]);
        assert(w0 == 0 || is_payload(v0.cells, v0.from, w0));
    }
}

/// The state after marking is one in which the callback may trace.
pub(crate) proof fn lemma_marking_store(v0: GcView, v: GcView, t: Layout, i: int)
    requires
        marking(v0, v, t),
        base_ok(v0),
        slots_ok(t),
        pointers_valid(v0, t),
        v.work.len() > 0,
        0 <= i < v.cells.len(),
        v.work[0] + 16 == payload(v.from, v.cells[i]),
        !marked_at(v.mem, payload(v.from, v.cells[i])),
    ensures
        mark_ok(mark_stored(v, i)),
        pointers_valid(mark_stored(v, i), t),
        same_but_heads(v0.mem, mark_stored(v, i).mem, v.from, v.cells),
        unmarked(v).contains(i),
        unmarked(mark_stored(v, i)) == unmarked(v).remove(i),
{
    let v2 = mark_stored(v, i);
    lemma_marks_after_store(v, i);
    lemma_store_head_same(v0.mem, v.mem, v.from, v.cells, i, v.cells[i].desc + 1);
    lemma_pointers_carry(v0, v2, t);
    assert forall|k: int| 0 <= k < v2.work.len() implies is_payload(
        v2.cells,
        v2.from,
        #[trigger] v2.work[k] + 16,
    ) by {
        assert(v2.work[k] == v.work[k + 1]);
    }
    assert forall|k: int| unmarked(v2).contains(k) == unmarked(v).remove(i).contains(k) by {
        if 0 <= k < v.cells.len() {
            assert(marked_at(v2.mem, payload(v.from, v.cells[k])) == (k == i || marked_at(
                v.mem,
                payload(v.from, v.cells[k]),
            )));
        }
    }
    assert(unmarked(v2) =~= unmarked(v).remove(i));
}

/// The marking invariant outlasts marking the cell at the front of the work
/// list and tracing it.
pub(crate) proof fn lemma_marking_traced(v0: GcView, v: GcView, t: Layout, i: int)
    requires
        marking(v0, v, t),
        base_ok(v0),
        slots_ok(t),
        pointers_valid(v0, t),
        v.work.len() > 0,
        0 <= i < v.cells.len(),
        v.work[0] + 16 == payload(v.from, v.cells[i]),
        !marked_at(v.mem, payload(v.from, v.cells[i])),
    ensures
        marking(v0, traced(mark_stored(v, i), t, payload(v.from, v.cells[i])), t),
{
    let v2 = mark_stored(v, i);
    let p = payload(v.from, v.cells[i]);
    let v3 = traced(v2, t, p);
    let m = v.mem;
    let m1 = v2.mem;
    lemma_marking_store(v0, v, t, i);
    lemma_marks_after_store(v, i);
    lemma_index_of(v.cells, v.from, i);
    let slots = cell_slots(t, v.cells[i]);
    assert(slots_at(v2, t, p) == slots);
    let n = slots.len() as int;
    let add = pushed(m1, p, slots, n);
    assert(v3.work == v2.work + add);
    lemma_pointers_carry(v0, v, t);
    lemma_pointers_carry(v0, v2, t);
    assert forall|j: int| 0 <= j < n implies #[trigger] child(m1, p, slots[j]) == 0 || 16 <= child(
        m1,
        p,
        slots[j],
    ) <= usize::MAX by {
        let w = child(v2.mem, payload(v2.from, v2.cells[i]), cell_slots(t, v2.cells[i])[j]);
        if w != 0 {
            lemma_payload_bounds(v2, w);
        }
    }
    lemma_pushed(m1, p, slots, n);

    // The work list holds headers of cells.
    assert forall|k: int| 0 <= k < v3.work.len() implies is_payload(
        v3.cells,
        v3.from,
        #[trigger] v3.work[k] + 16,
    ) by {
        if k < v2.work.len() {
            assert(v3.work[k] == v2.work[k]);
        } else {
            let q = k - v2.work.len();
            assert(v3.work[k] == add[q]);
            let j = choose|j: int|
                0 <= j < n && #[trigger] child(m1, p, slots[j]) != 0 && #[trigger] add[q] + 16
                    == child(m1, p, slots[j]);
            let w = child(v2.mem, payload(v2.from, v2.cells[i]), cell_slots(t, v2.cells[i])[j]);
            assert(is_payload(v2.cells, v2.from, w));
        }
    }
    assert(mark_ok(v3));

    // The index of the cell being marked, as the work list names it.
    assert(index_of(v0.cells, v0.from, v.work[0] + 16) == i);
    assert(reachable(v0, t, i));

    // Marked cells are reachable.
    assert forall|k: int|
        0 <= k < v3.cells.len() && marked_at(
            v3.mem,
            #[trigger] payload(v3.from, v3.cells[k]),
        ) implies reachable(v0, t, k) by {
        if k != i {
            assert(marked_at(m, payload(v.from, v.cells[k])));
        }
    }

    // Headers on the work list are headers of reachable cells.
    assert forall|q: int| 0 <= q < v3.work.len() implies reachable(
        v0,
        t,
        index_of(v0.cells, v0.from, #[trigger] v3.work[q] + 16),
    ) by {
        if q < v2.work.len() {
            assert(v3.work[q] == v.work[q + 1]);
        } else {
            let r = q - v2.work.len();
            assert(v3.work[q] == add[r]);
            let j = choose|j: int|
                0 <= j < n && #[trigger] child(m1, p, slots[j]) != 0 && #[trigger] add[r] + 16
                    == child(m1, p, slots[j]);
            let w = child(v2.mem, payload(v2.from, v2.cells[i]), cell_slots(t, v2.cells[i])[j]);
            assert(is_payload(v2.cells, v2.from, w));
            let k2 = index_of(v0.cells, v0.from, w);
            assert(child(v0.mem, payload(v0.from, v0.cells[i]), cell_slots(t, v0.cells[i])[j])
                == w);
            assert(edge(v0, t, i, k2));
            lemma_reach_step(v0, t, i, k2);
        }
    }

    // Roots are marked or listed.
    assert forall|k: DefaultKey| #[trigger] v3.handles.contains_key(k) implies marked_at(
        v3.mem,
        v3.handles[k] as int,
    ) || listed(v3.work, v3.handles[k] as int) by {
        let w = v.handles[k] as int;
        assert(is_payload(v.cells, v.from, w));
        let k2 = index_of(v.cells, v.from, w);
        assert(marked_at(m1, payload(v.from, v.cells[k2])) == (k2 == i || marked_at(
            m,
            payload(v.from, v.cells[k2]),
        )));
        if !marked_at(m, w) && k2 != i {
            assert(listed(v.work, w));
            lemma_drop_first_listed(v.work, w);
            lemma_listed_concat(v2.work, add, w);
        }
    }

    // Children of marked cells are marked or listed.
    assert forall|a: int, j: int|
        0 <= a < v3.cells.len() && 0 <= j < cell_slots(t, v3.cells[a]).len() && marked_at(
            v3.mem,
            payload(v3.from, v3.cells[a]),
        ) implies {
        let w = #[trigger] child(
            v3.mem,
            payload(v3.from, v3.cells[a]),
            cell_slots(t, v3.cells[a])[j],
        );
        w == 0 || marked_at(v3.mem, w) || listed(v3.work, w)
    } by {
        let w = child(v2.mem, payload(v2.from, v2.cells[a]), cell_slots(t, v2.cells[a])[j]);
        let w_before = child(v.mem, payload(v.from, v.cells[a]), cell_slots(t, v.cells[a])[j]);
        let w_first = child(v0.mem, payload(v0.from, v0.cells[a]), cell_slots(t, v0.cells[a])[j]);
        assert(w == w_first);
        assert(w_before == w_first);
        if w != 0 {
            assert(is_payload(v2.cells, v2.from, w));
            let k2 = index_of(v.cells, v.from, w);
            assert(marked_at(m1, payload(v.from, v.cells[k2])) == (k2 == i || marked_at(
                m,
                payload(v.from, v.cells[k2]),
            )));
            if a == i {
                assert(listed(add, child(m1, p, slots[j])));
                lemma_listed_concat(v2.work, add, w);
            } else {
                assert(marked_at(m1, payload(v.from, v.cells[a])) == (a == i || marked_at(
                    m,
                    payload(v.from, v.cells[a]),
                )));
                assert(marked_at(m, payload(v.from, v.cells[a])));
                if !marked_at(m, w) && k2 != i {
                    assert(listed(v.work, w));
                    lemma_drop_first_listed(v.work, w);
                    lemma_listed_concat(v2.work, add, w);
                }
            }
        }
    }
}

/// Whatever is reached within `n` steps is marked, once the work list is
/// empty.
pub(crate) proof fn lemma_marked_closed(v0: GcView, v: GcView, t: Layout, k: int, n: nat)
    requires
        marking(v0, v, t),
        base_ok(v0),
        slots_ok(t),
        pointers_valid(v0, t),
        v.work.len() == 0,
        reach_in(v0, t, k, n),
    ensures
        marked_at(v.mem, payload(v.from, v.cells[k])),
    decreases n,
{
    if is_root(v0, k) {
        let key = choose|key: DefaultKey| #[trigger]
            v0.handles.contains_key(key) && v0.handles[key] == payload(v0.from, v0.cells[k]);
        assert(v.handles.contains_key(key));
        assert(!listed(v.work, v.handles[key] as int));
    } else {
        let i = choose|i: int|
            0 <= i < v0.cells.len() && reach_in(v0, t, i, (n - 1) as nat) && #[trigger] edge(
                v0,
                t,
                i,
                k,
            );
        lemma_marked_closed(v0, v, t, i, (n - 1) as nat);
        let j = choose|j: int|
            0 <= j < cell_slots(t, v0.cells[i]).len() && #[trigger] child(
                v0.mem,
                payload(v0.from, v0.cells[i]),
                cell_slots(t, v0.cells[i])[j],
            ) == payload(v0.from, v0.cells[k]);
        lemma_pointers_carry(v0, v, t);
        let w = child(v.mem, payload(v.from, v.cells[i]), cell_slots(t, v.cells[i])[j]);
        assert(w == payload(v0.from, v0.cells[k]));
        lemma_tiles_within(v.cells, k);
        assert(!listed(v.work, w));
    }
}

/// With the work list empty, the marked cells are the reachable ones.
pub(crate) proof fn lemma_marking_end(v0: GcView, v: GcView, t: Layout)
    requires
        marking(v0, v, t),
        base_ok(v0),
        slots_ok(t),
        pointers_valid(v0, t),
        v.work.len() == 0,
    ensures
        forall|k: int|
            0 <= k < v.cells.len() ==> (marked_at(v.mem, #[trigger] payload(v.from, v.cells[k]))
                <==> reachable(v0, t, k)),
{
    assert forall|k: int| 0 <= k < v.cells.len() implies (marked_at(
        v.mem,
        #[trigger] payload(v.from, v.cells[k]),
    ) <==> reachable(v0, t, k)) by {
        if reachable(v0, t, k) {
            let n = choose|n: nat| reach_in(v0, t, k, n);
            lemma_marked_closed(v0, v, t, k, n);
        }
    }
}

} // verus!
