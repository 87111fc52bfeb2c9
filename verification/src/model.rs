//! The collector's state as mathematics: the heap's layout, the graph that
//! managed pointers form over it, and what it means for it to be in order.

use crate::mem::{store_word, word_at};
use slotmap::DefaultKey;
use vstd::prelude::*;

verus! {

/// One allocated cell: where it starts in its half, how many bytes it takes
/// with its header, and its descriptor.
pub struct Cell {
    pub start: int,
    pub size: int,
    pub desc: usize,
}

/// What a collector is, seen from outside.
pub struct GcView {
    /// The bytes of the whole region: both halves.
    pub mem: Seq<u8>,
    /// The size of one half.
    pub chunk: int,
    /// Where the active half starts in the region.
    pub from: int,
    /// Where the scratch half starts in the region.
    pub to: int,
    /// The bytes of the active half that cells take.
    pub cursor: int,
    /// Whether a collection is under way.
    pub in_gc: bool,
    /// The headers still to be marked.
    pub work: Seq<usize>,
    /// The roots: each handle's key with the payload it anchors.
    pub handles: Map<DefaultKey, usize>,
    pub gc_count: int,
    pub total_allocated: int,
    pub high_water_mark: int,
    /// The allocated cells of the active half, in address order.
    pub cells: Seq<Cell>,
    /// The cells that the collection under way has copied to the scratch half.
    pub to_cells: Seq<Cell>,
    /// Where the latest collection moved each payload that it kept: old
    /// address to new address.
    pub fwd: Map<int, int>,
}

pub open spec fn cell_ok(c: Cell) -> bool {
    &&& 0 <= c.start
    &&& c.start % 16 == 0
    &&& 16 <= c.size
    &&& c.size % 16 == 0
    &&& c.desc != 0
    &&& c.desc as int % 2 == 0
}

/// Cell `i` ends where cell `i + 1` starts.
pub open spec fn abuts(cells: Seq<Cell>, i: int) -> bool {
    cells[i].start + cells[i].size == cells[i + 1].start
}

/// The cells lie one after the other from offset 0 on, without gaps.
pub open spec fn tiles(cells: Seq<Cell>) -> bool {
    &&& forall|i: int| 0 <= i < cells.len() ==> cell_ok(#[trigger] cells[i])
    &&& cells.len() > 0 ==> cells[0].start == 0
    &&& forall|i: int| 0 <= i < cells.len() - 1 ==> #[trigger] abuts(cells, i)
}

/// The offset at which the cells end.
pub open spec fn extent(cells: Seq<Cell>) -> int {
    if cells.len() == 0 {
        0
    } else {
        cells.last().start + cells.last().size
    }
}

/// Cells that tile are in address order, and all end by the extent.
pub proof fn lemma_tiles_ordered(cells: Seq<Cell>, i: int, j: int)
    requires
        tiles(cells),
        0 <= i < j < cells.len(),
    ensures
        cells[i].start + cells[i].size <= cells[j].start,
        cells[j].start + cells[j].size <= extent(cells),
    decreases cells.len() - i,
{
    assert(abuts(cells, i));
    if i + 1 < j {
        lemma_tiles_ordered(cells, i + 1, j);
    } else if j + 1 < cells.len() {
        lemma_tiles_ordered(cells, j, cells.len() - 1);
    }
}

/// Every cell of a tiling ends by the extent.
pub proof fn lemma_tiles_within(cells: Seq<Cell>, i: int)
    requires
        tiles(cells),
        0 <= i < cells.len(),
    ensures
        0 <= cells[i].start,
        cells[i].start + cells[i].size <= extent(cells),
{
    if i + 1 < cells.len() {
        lemma_tiles_ordered(cells, i, cells.len() - 1);
    }
}

/// A tiling stays one when a cell is put at its end.
pub proof fn lemma_tiles_push(cells: Seq<Cell>, c: Cell)
    requires
        tiles(cells),
        cell_ok(c),
        c.start == extent(cells),
    ensures
        tiles(cells.push(c)),
        extent(cells.push(c)) == c.start + c.size,
{
    let next = cells.push(c);
    assert forall|i: int| 0 <= i < next.len() - 1 implies #[trigger] abuts(next, i) by {
        if i + 1 < cells.len() {
            assert(abuts(cells, i));
        }
    }
}

/// The address of a cell's payload, for a half that starts at `base`.
pub open spec fn payload(base: int, c: Cell) -> int {
    base + c.start + 16
}

/// `p` is the address of the payload of one of the cells.
pub open spec fn is_payload(cells: Seq<Cell>, base: int, p: int) -> bool {
    exists|i: int| 0 <= i < cells.len() && #[trigger] payload(base, cells[i]) == p
}

/// The index of the cell whose payload is at `p`.
pub open spec fn index_of(cells: Seq<Cell>, base: int, p: int) -> int {
    choose|i: int| 0 <= i < cells.len() && #[trigger] payload(base, cells[i]) == p
}

/// No two cells of a tiling share a payload address.
pub proof fn lemma_index_unique(cells: Seq<Cell>, base: int, i: int, j: int)
    requires
        tiles(cells),
        0 <= i < cells.len(),
        0 <= j < cells.len(),
        payload(base, cells[i]) == payload(base, cells[j]),
    ensures
        i == j,
{
    if i < j {
        lemma_tiles_ordered(cells, i, j);
    } else if j < i {
        lemma_tiles_ordered(cells, j, i);
    }
}

/// The index of a cell's payload is the cell's index.
pub proof fn lemma_index_of(cells: Seq<Cell>, base: int, i: int)
    requires
        tiles(cells),
        0 <= i < cells.len(),
    ensures
        is_payload(cells, base, payload(base, cells[i])),
        index_of(cells, base, payload(base, cells[i])) == i,
{
    let j = index_of(cells, base, payload(base, cells[i]));
    lemma_index_unique(cells, base, i, j);
}

/// The first word of the header of `c`.
pub open spec fn head_word(mem: Seq<u8>, base: int, c: Cell) -> int {
    word_at(mem, base + c.start)
}

/// The second word of the header of `c`.
pub open spec fn size_word(mem: Seq<u8>, base: int, c: Cell) -> int {
    word_at(mem, base + c.start + 8)
}

/// Every cell's header holds the cell's size.
pub open spec fn sizes_match(mem: Seq<u8>, base: int, cells: Seq<Cell>) -> bool {
    forall|i: int|
        0 <= i < cells.len() ==> size_word(mem, base, #[trigger] cells[i]) == cells[i].size
}

/// Every cell's header holds the cell's descriptor, unmarked.
pub open spec fn heads_plain(mem: Seq<u8>, base: int, cells: Seq<Cell>) -> bool {
    forall|i: int|
        0 <= i < cells.len() ==> head_word(mem, base, #[trigger] cells[i]) == cells[i].desc
}

/// Where cells end before the half does, a free cell takes the rest.
pub open spec fn free_tail(mem: Seq<u8>, base: int, cursor: int, chunk: int) -> bool {
    cursor < chunk ==> word_at(mem, base + cursor) == 0 && word_at(mem, base + cursor + 8) == chunk
        - cursor
}

/// The region is two halves of `chunk` bytes, one active and one scratch.
pub open spec fn geometry_ok(v: GcView) -> bool {
    &&& 16 <= v.chunk
    &&& v.chunk % 16 == 0
    &&& v.mem.len() == 2 * v.chunk
    &&& 2 * v.chunk <= usize::MAX
    &&& (v.from == 0 && v.to == v.chunk) || (v.from == v.chunk && v.to == 0)
}

/// The half that newly written cells are in: the scratch half while a
/// collection runs, the active half otherwise.
pub open spec fn new_base(v: GcView) -> int {
    if v.in_gc {
        v.to
    } else {
        v.from
    }
}

/// The half that the latest collection emptied, or is emptying.
pub open spec fn old_base(v: GcView) -> int {
    if v.in_gc {
        v.from
    } else {
        v.to
    }
}

/// The cells of the half that `new_base` names.
pub open spec fn new_cells(v: GcView) -> Seq<Cell> {
    if v.in_gc {
        v.to_cells
    } else {
        v.cells
    }
}

/// Each payload that moved left its new address in its old header, and the
/// new address is a payload of the new half.
pub open spec fn fwd_ok(v: GcView) -> bool {
    forall|a: int| #[trigger]
        v.fwd.contains_key(a) ==> {
            &&& old_base(v) + 16 <= a <= old_base(v) + v.chunk
            &&& word_at(v.mem, a - 16) == v.fwd[a]
            &&& is_payload(new_cells(v), new_base(v), v.fwd[a])
        }
}

/// Every handle anchors the payload of a cell of the active half.
pub open spec fn handles_valid(v: GcView) -> bool {
    &&& v.handles.dom().finite()
    &&& forall|k: DefaultKey| #[trigger]
        v.handles.contains_key(k) ==> is_payload(v.cells, v.from, v.handles[k] as int)
}

/// What holds of the layout at every moment: the cells of the active half
/// tile it up to the cursor, their headers hold their sizes, and a free cell
/// takes the rest.
pub open spec fn base_ok(v: GcView) -> bool {
    &&& geometry_ok(v)
    &&& tiles(v.cells)
    &&& extent(v.cells) == v.cursor
    &&& v.cursor <= v.chunk
    &&& sizes_match(v.mem, v.from, v.cells)
    &&& free_tail(v.mem, v.from, v.cursor, v.chunk)
}

/// What holds between collections.
pub open spec fn idle_ok(v: GcView) -> bool {
    &&& base_ok(v)
    &&& !v.in_gc
    &&& v.work.len() == 0
    &&& v.to_cells.len() == 0
    &&& heads_plain(v.mem, v.from, v.cells)
    &&& handles_valid(v)
    &&& fwd_ok(v)
}

/// The word of a payload at word index `k`.
pub open spec fn child(mem: Seq<u8>, p: int, k: int) -> int {
    word_at(mem, p + 8 * k)
}

/// Which words of a payload hold managed pointers: from the payload's
/// descriptor and its length in bytes to the word indices.
pub type Layout = spec_fn(usize, int) -> Seq<int>;

/// The word indices of the managed pointers in the payload of `c`.
pub open spec fn cell_slots(l: Layout, c: Cell) -> Seq<int> {
    l(c.desc, c.size - 16)
}

/// A descriptor set names, for every payload, word indices inside the payload
/// and none of them twice.
pub open spec fn slots_ok(l: Layout) -> bool {
    &&& forall|vt: usize, len: int, j: int|
        0 <= j < l(vt, len).len() ==> 0 <= #[trigger] l(vt, len)[j] && 8 * l(vt, len)[j] + 8
            <= len
    &&& forall|vt: usize, len: int, j: int, k: int|
        0 <= j < k < l(vt, len).len() ==> #[trigger] l(vt, len)[j] != #[trigger] l(vt, len)[k]
}

/// Every managed pointer in a cell of the active half is null or the address
/// of the payload of a cell of the active half.
pub open spec fn pointers_valid(v: GcView, t: Layout) -> bool {
    forall|i: int, j: int|
        0 <= i < v.cells.len() && 0 <= j < cell_slots(t, v.cells[i]).len() ==> {
            let w = #[trigger] child(v.mem, payload(v.from, v.cells[i]), cell_slots(t, v.cells[i])[j]);
            w == 0 || is_payload(v.cells, v.from, w)
        }
}

/// The eight bytes from `x` on lie in the payload of one of the cells.
pub open spec fn in_payload(cells: Seq<Cell>, base: int, x: int) -> bool {
    exists|i: int|
        0 <= i < cells.len() && payload(base, #[trigger] cells[i]) <= x && x + 8 <= base
            + cells[i].start + cells[i].size
}

/// The index of the cell in whose payload the eight bytes from `x` on lie.
pub open spec fn holder_of(cells: Seq<Cell>, base: int, x: int) -> int {
    choose|i: int|
        0 <= i < cells.len() && payload(base, #[trigger] cells[i]) <= x && x + 8 <= base
            + cells[i].start + cells[i].size
}

/// A word stored inside a payload leaves every header as it was.
pub proof fn lemma_store_keeps_headers(mem: Seq<u8>, base: int, cells: Seq<Cell>, x: int, w: int)
    requires
        tiles(cells),
        in_payload(cells, base, x),
        0 <= base,
        base + extent(cells) <= mem.len(),
    ensures
        forall|i: int|
            0 <= i < cells.len() ==> head_word(store_word(mem, x, w), base, #[trigger] cells[i])
                == head_word(mem, base, cells[i]),
        forall|i: int|
            0 <= i < cells.len() ==> size_word(store_word(mem, x, w), base, #[trigger] cells[i])
                == size_word(mem, base, cells[i]),
{
    broadcast use crate::mem::group_words;

    let k = holder_of(cells, base, x);
    lemma_tiles_within(cells, k);
    assert forall|i: int| 0 <= i < cells.len() implies head_word(
        store_word(mem, x, w),
        base,
        #[trigger] cells[i],
    ) == head_word(mem, base, cells[i]) && size_word(store_word(mem, x, w), base, cells[i])
        == size_word(mem, base, cells[i]) by {
        lemma_tiles_within(cells, i);
        if i < k {
            lemma_tiles_ordered(cells, i, k);
        } else if k < i {
            lemma_tiles_ordered(cells, k, i);
        }
    }
}

/// A word inside the payload of cell `k` overlaps the header of no cell.
pub proof fn lemma_payload_word_apart(cells: Seq<Cell>, base: int, k: int, x: int, i: int)
    requires
        tiles(cells),
        0 <= k < cells.len(),
        0 <= i < cells.len(),
        payload(base, cells[k]) <= x,
        x + 8 <= base + cells[k].start + cells[k].size,
    ensures
        x + 8 <= base + cells[i].start || base + cells[i].start + 16 <= x,
        base <= x,
        x + 8 <= base + extent(cells),
{
    lemma_tiles_within(cells, k);
    if k < i {
        lemma_tiles_ordered(cells, k, i);
    } else if i < k {
        lemma_tiles_ordered(cells, i, k);
    }
}

/// Cell `k` is anchored by a handle.
pub open spec fn is_root(v: GcView, k: int) -> bool {
    exists|key: DefaultKey| #[trigger]
        v.handles.contains_key(key) && v.handles[key] == payload(v.from, v.cells[k])
}

/// A managed pointer in cell `i` points to cell `k`.
pub open spec fn edge(v: GcView, t: Layout, i: int, k: int) -> bool {
    exists|j: int|
        0 <= j < cell_slots(t, v.cells[i]).len() && #[trigger] child(
            v.mem,
            payload(v.from, v.cells[i]),
            cell_slots(t, v.cells[i])[j],
        ) == payload(v.from, v.cells[k])
}

/// Cell `k` is reached from a root by following at most `n` managed pointers.
pub open spec fn reach_in(v: GcView, t: Layout, k: int, n: nat) -> bool
    decreases n,
{
    &&& 0 <= k < v.cells.len()
    &&& (is_root(v, k) || (n > 0 && exists|i: int|
        0 <= i < v.cells.len() && reach_in(v, t, i, (n - 1) as nat) && #[trigger] edge(v, t, i, k)))
}

/// Cell `k` is reached from a root by following managed pointers.
pub open spec fn reachable(v: GcView, t: Layout, k: int) -> bool {
    exists|n: nat| reach_in(v, t, k, n)
}

/// The address of every payload of a state in order is one of the machine's
/// numbers, and so is the address behind it.
pub proof fn lemma_payload_bounds(v: GcView, p: int)
    requires
        base_ok(v),
        is_payload(v.cells, v.from, p),
    ensures
        16 <= p,
        p <= v.from + v.cursor,
        p <= v.mem.len(),
        p <= usize::MAX,
{
    let k = index_of(v.cells, v.from, p);
    lemma_tiles_within(v.cells, k);
}

/// A cell that a reachable cell points to is reachable.
pub proof fn lemma_reach_step(v: GcView, t: Layout, i: int, k: int)
    requires
        reachable(v, t, i),
        0 <= k < v.cells.len(),
        edge(v, t, i, k),
    ensures
        reachable(v, t, k),
{
    let n = choose|n: nat| reach_in(v, t, i, n);
    let m = (n + 1) as nat;
    assert(reach_in(v, t, i, (m - 1) as nat));
    assert(reach_in(v, t, k, m));
}

/// Every managed pointer in cell `i` is null or the address of the payload of
/// a cell of the active half.
pub open spec fn settled(v: GcView, t: Layout, i: int) -> bool {
    forall|j: int|
        0 <= j < cell_slots(t, v.cells[i]).len() ==> {
            let w = #[trigger] child(v.mem, payload(v.from, v.cells[i]), cell_slots(t, v.cells[i])[j]);
            w == 0 || is_payload(v.cells, v.from, w)
        }
}

/// A tiling ends at a multiple of 16.
pub proof fn lemma_extent_aligned(cells: Seq<Cell>)
    requires
        tiles(cells),
    ensures
        0 <= extent(cells),
        extent(cells) % 16 == 0,
{
    if cells.len() > 0 {
        assert(cell_ok(cells[cells.len() - 1]));
    }
}

} // verus!
