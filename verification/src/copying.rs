//! The second part of a collection as mathematics: what holds while the
//! marked cells are copied to the scratch half.

use crate::marking::{mark_ok, marked_at};
use crate::mem::{copy_bytes, lemma_word_agree, lemma_word_moved, store_word, word_at, word_limit};
use crate::model::{
    Cell, GcView, base_ok, cell_ok, extent, head_word, lemma_extent_aligned, lemma_tiles_ordered,
    lemma_tiles_push, lemma_tiles_within, payload, size_word, tiles,
};
use vstd::prelude::*;

verus! {

/// `x` is the address of a byte of the first header word of a marked cell
/// among the first `i`.
pub open spec fn moved_head_byte(vm: GcView, i: int, x: int) -> bool {
    exists|k: int|
        0 <= k < i && k < vm.cells.len() && marked_at(
            vm.mem,
            payload(vm.from, #[trigger] vm.cells[k]),
        ) && vm.from + vm.cells[k].start <= x < vm.from + vm.cells[k].start + 8
}

/// The active half holds what it held when copying began, but for the first
/// header words of the marked cells among the first `i`.
pub open spec fn from_kept(vm: GcView, m: Seq<u8>, i: int) -> bool {
    forall|x: int|
        vm.from <= x < vm.from + vm.chunk && !moved_head_byte(vm, i, x) ==> #[trigger] m[x]
            == vm.mem[x]
}

/// Cell `r` of the scratch half is the copy of the marked cell `k` of the
/// active half: same size, descriptor and payload, unmarked, and the old
/// header holds the new payload's address.
pub open spec fn copy_of(vm: GcView, v: GcView, k: int, r: int) -> bool {
    let c = vm.cells[k];
    let d = v.to_cells[r];
    &&& 0 <= k < vm.cells.len()
    &&& marked_at(vm.mem, payload(vm.from, c))
    &&& d.size == c.size
    &&& d.desc == c.desc
    &&& head_word(v.mem, v.to, d) == d.desc
    &&& size_word(v.mem, v.to, d) == d.size
    &&& forall|x: int|
        payload(v.to, d) <= x < v.to + d.start + d.size ==> #[trigger] v.mem[x] == vm.mem[x
            - payload(v.to, d) + payload(vm.from, c)]
    &&& head_word(v.mem, vm.from, c) == payload(v.to, d)
    &&& v.fwd.contains_key(payload(vm.from, c))
    &&& v.fwd[payload(vm.from, c)] == payload(v.to, d)
}

/// The offset in the active half up to which cells have been looked at, when
/// the next one is cell `i`.
pub open spec fn bound(vm: GcView, i: int) -> int {
    if i < vm.cells.len() {
        vm.cells[i].start
    } else {
        vm.cursor
    }
}

/// What holds while the collection that finished marking in `vm` copies: the
/// first `i` cells have been looked at, and `src` names, for each cell of the
/// scratch half, the cell that it is the copy of.
pub open spec fn copying(vm: GcView, v: GcView, i: int, src: Seq<int>) -> bool {
    &&& v == (GcView { mem: v.mem, to_cells: v.to_cells, fwd: v.fwd, ..vm })
    &&& v.mem.len() == vm.mem.len()
    &&& 0 <= i <= vm.cells.len()
    &&& src.len() == v.to_cells.len()
    &&& from_kept(vm, v.mem, i)
    &&& tiles(v.to_cells)
    &&& extent(v.to_cells) <= bound(vm, i)
    &&& forall|r: int| 0 <= r < src.len() ==> 0 <= #[trigger] src[r] < i && copy_of(vm, v, src[r], r)
    &&& forall|r1: int, r2: int|
        0 <= r1 < r2 < src.len() ==> #[trigger] src[r1] < #[trigger] src[r2]
    &&& forall|k: int|
        0 <= k < i && marked_at(vm.mem, #[trigger] payload(vm.from, vm.cells[k])) ==> src.contains(
            k,
        )
    &&& forall|a: int| #[trigger]
        v.fwd.contains_key(a) ==> exists|r: int|
            0 <= r < src.len() && a == payload(vm.from, vm.cells[#[trigger] src[r]])
}

/// The memory after the `sz` bytes at `a` were copied to `b`, the word `fwd`
/// was stored at `a`, and the word `head` at `b`.
pub open spec fn moved(m: Seq<u8>, a: int, b: int, sz: int, fwd: int, head: int) -> Seq<u8> {
    store_word(store_word(copy_bytes(m, a, b, sz), a, fwd), b, head)
}

/// What `moved` changes and what it leaves.
pub(crate) proof fn lemma_moved(m: Seq<u8>, a: int, b: int, sz: int, fwd: int, head: int)
    requires
        0 <= a,
        0 <= b,
        16 <= sz,
        a + sz <= m.len(),
        b + sz <= m.len(),
        a + sz <= b || b + sz <= a,
        0 <= fwd < word_limit(),
        0 <= head < word_limit(),
    ensures
        moved(m, a, b, sz, fwd, head).len() == m.len(),
        forall|x: int|
            0 <= x < m.len() && !(b <= x < b + sz) && !(a <= x < a + 8) ==> #[trigger] moved(
                m,
                a,
                b,
                sz,
                fwd,
                head,
            )[x] == m[x],
        forall|x: int|
            b + 8 <= x < b + sz ==> #[trigger] moved(m, a, b, sz, fwd, head)[x] == m[x - b + a],
        word_at(moved(m, a, b, sz, fwd, head), a) == fwd,
        word_at(moved(m, a, b, sz, fwd, head), b) == head,
        word_at(moved(m, a, b, sz, fwd, head), b + 8) == word_at(m, a + 8),
{
    broadcast use crate::mem::group_words;

    let m1 = copy_bytes(m, a, b, sz);
    let m2 = store_word(m1, a, fwd);
    let m3 = store_word(m2, b, head);
    assert forall|x: int|
        0 <= x < m.len() && !(b <= x < b + sz) && !(a <= x < a + 8) implies #[trigger] m3[x]
        == m[x] by {
        assert(m3[x] == m2[x]);
        assert(m2[x] == m1[x]);
    }
    assert forall|x: int| b + 8 <= x < b + sz implies #[trigger] m3[x] == m[x - b + a] by {
        assert(m3[x] == m2[x]);
        assert(m2[x] == m1[x]);
    }
    assert(word_at(m3, a) == word_at(m2, a));
    assert forall|x: int| b + 8 <= x < b + 16 implies #[trigger] m3[x] == m[x - (b + 8) + (a
        + 8)] by {
        assert(m3[x] == m[x - b + a]);
    }
    lemma_word_moved(m3, b + 8, m, a + 8);
}

/// The cells still to be looked at lie behind the ones looked at.
pub(crate) proof fn lemma_bound(vm: GcView, i: int)
    requires
        base_ok(vm),
        0 <= i < vm.cells.len(),
    ensures
        0 <= bound(vm, i),
        bound(vm, i) + vm.cells[i].size == bound(vm, i + 1),
        bound(vm, i + 1) <= vm.cursor,
{
    lemma_tiles_within(vm.cells, i);
    if i + 1 < vm.cells.len() {
        assert(crate::model::abuts(vm.cells, i));
        lemma_tiles_within(vm.cells, i + 1);
    }
}

/// No byte of cell `k` from its second header word on, and no byte of it at
/// all if `k` is not among the first `i`, is a byte of a moved header.
pub(crate) proof fn lemma_not_moved(vm: GcView, i: int, k: int, x: int)
    requires
        base_ok(vm),
        0 <= k < vm.cells.len(),
        0 <= i <= vm.cells.len(),
        vm.from + vm.cells[k].start <= x < vm.from + vm.cells[k].start + vm.cells[k].size,
        i <= k || vm.from + vm.cells[k].start + 8 <= x || !marked_at(
            vm.mem,
            payload(vm.from, vm.cells[k]),
        ),
    ensures
        !moved_head_byte(vm, i, x),
        vm.from <= x < vm.from + vm.chunk,
{
    lemma_tiles_within(vm.cells, k);
    if moved_head_byte(vm, i, x) {
        let j = choose|j: int|
            0 <= j < i && j < vm.cells.len() && marked_at(
                vm.mem,
                payload(vm.from, #[trigger] vm.cells[j]),
            ) && vm.from + vm.cells[j].start <= x < vm.from + vm.cells[j].start + 8;
        lemma_tiles_within(vm.cells, j);
        if j < k {
            lemma_tiles_ordered(vm.cells, j, k);
        } else if k < j {
            lemma_tiles_ordered(vm.cells, k, j);
        }
    }
}

/// While copying, the header of the next cell to look at is as marking left
/// it, and so is the free cell behind the cells.
pub(crate) proof fn lemma_copy_read(vm: GcView, v: GcView, i: int, src: Seq<int>)
    requires
        mark_ok(vm),
        copying(vm, v, i, src),
    ensures
        i < vm.cells.len() ==> head_word(v.mem, vm.from, vm.cells[i]) == head_word(
            vm.mem,
            vm.from,
            vm.cells[i],
        ) && size_word(v.mem, vm.from, vm.cells[i]) == vm.cells[i].size,
        vm.cursor < vm.chunk ==> word_at(v.mem, vm.from + vm.cursor) == 0 && word_at(
            v.mem,
            vm.from + vm.cursor + 8,
        ) == vm.chunk - vm.cursor,
{
    if i < vm.cells.len() {
        let a = vm.from + vm.cells[i].start;
        assert forall|x: int| a <= x < a + 16 implies v.mem[x] == vm.mem[x] by {
            lemma_not_moved(vm, i, i, x);
        }
        lemma_word_agree(v.mem, vm.mem, a);
        lemma_word_agree(v.mem, vm.mem, a + 8);
    }
    if vm.cursor < vm.chunk {
        let a = vm.from + vm.cursor;
        lemma_extent_aligned(vm.cells);
        assert forall|x: int| a <= x < a + 16 implies v.mem[x] == vm.mem[x] by {
            if moved_head_byte(vm, i, x) {
                let j = choose|j: int|
                    0 <= j < i && j < vm.cells.len() && marked_at(
                        vm.mem,
                        payload(vm.from, #[trigger] vm.cells[j]),
                    ) && vm.from + vm.cells[j].start <= x < vm.from + vm.cells[j].start + 8;
                lemma_tiles_within(vm.cells, j);
            }
        }
        lemma_word_agree(v.mem, vm.mem, a);
        lemma_word_agree(v.mem, vm.mem, a + 8);
    }
}

/// Copying goes on past a cell that is not marked.
pub(crate) proof fn lemma_copy_skip(vm: GcView, v: GcView, i: int, src: Seq<int>)
    requires
        mark_ok(vm),
        copying(vm, v, i, src),
        i < vm.cells.len(),
        !marked_at(vm.mem, payload(vm.from, vm.cells[i])),
    ensures
        copying(vm, v, i + 1, src),
{
    lemma_bound(vm, i);
    assert forall|x: int|
        vm.from <= x < vm.from + vm.chunk && !moved_head_byte(vm, i + 1, x) implies #[trigger] v.mem[x]
        == vm.mem[x] by {
        if moved_head_byte(vm, i, x) {
            let j = choose|j: int|
                0 <= j < i && j < vm.cells.len() && marked_at(
                    vm.mem,
                    payload(vm.from, #[trigger] vm.cells[j]),
                ) && vm.from + vm.cells[j].start <= x < vm.from + vm.cells[j].start + 8;
            assert(moved_head_byte(vm, i + 1, x));
        }
    }
}

/// The state after the marked cell `i` was copied behind the copies made so
/// far, its old header was given the new payload's address, and the copy was
/// unmarked.
pub open spec fn move_stored(vm: GcView, v: GcView, i: int) -> GcView {
    let c = vm.cells[i];
    let to_c = extent(v.to_cells);
    GcView {
        mem: moved(
            v.mem,
            vm.from + c.start,
            v.to + to_c,
            c.size,
            v.to + to_c + 16,
            c.desc as int,
        ),
        to_cells: v.to_cells.push(Cell { start: to_c, size: c.size, desc: c.desc }),
        fwd: v.fwd.insert(vm.from + c.start + 16, v.to + to_c + 16),
        ..v
    }
}

/// Where the marked cell `i` and its copy lie: each in its half, apart from
/// each other.
pub(crate) proof fn lemma_move_fits(vm: GcView, v: GcView, i: int, src: Seq<int>)
    requires
        mark_ok(vm),
        copying(vm, v, i, src),
        i < vm.cells.len(),
    ensures
        0 <= extent(v.to_cells) <= vm.cells[i].start,
        extent(v.to_cells) % 16 == 0,
        vm.cells[i].start + vm.cells[i].size <= vm.cursor,
        vm.from + vm.cells[i].start + vm.cells[i].size <= v.mem.len(),
        v.to + extent(v.to_cells) + vm.cells[i].size <= v.mem.len(),
        vm.from + vm.cells[i].start + vm.cells[i].size <= v.to + extent(v.to_cells) || v.to
            + extent(v.to_cells) + vm.cells[i].size <= vm.from + vm.cells[i].start,
        v.to + extent(v.to_cells) + vm.cells[i].size <= v.to + vm.chunk,
        16 <= vm.cells[i].size,
        v.to == vm.to,
{
    lemma_extent_aligned(v.to_cells);
    lemma_tiles_within(vm.cells, i);
}

/// The copies made before stay what they were when one more cell is copied.
proof fn lemma_move_keeps(vm: GcView, v: GcView, i: int, src: Seq<int>, r: int)
    requires
        mark_ok(vm),
        copying(vm, v, i, src),
        i < vm.cells.len(),
        marked_at(vm.mem, payload(vm.from, vm.cells[i])),
        0 <= r < src.len(),
    ensures
        copy_of(vm, move_stored(vm, v, i), src[r], r),
{
    let v1 = move_stored(vm, v, i);
    let c = vm.cells[i];
    let a = vm.from + c.start;
    let b = v.to + extent(v.to_cells);
    lemma_move_fits(vm, v, i, src);
    lemma_moved(v.mem, a, b, c.size, b + 16, c.desc as int);
    let k = src[r];
    assert(copy_of(vm, v, k, r));
    let ck = vm.cells[k];
    let d = v.to_cells[r];
    assert(v1.to_cells[r] == d);
    lemma_tiles_within(v.to_cells, r);
    lemma_tiles_within(vm.cells, k);
    lemma_tiles_ordered(vm.cells, k, i);
    // The copy's bytes lie before the new copy and in the other half than the old cell.
    assert forall|x: int| v.to + d.start <= x < v.to + d.start + d.size implies v1.mem[x]
        == v.mem[x] by {}
    lemma_word_agree(v1.mem, v.mem, v.to + d.start);
    lemma_word_agree(v1.mem, v.mem, v.to + d.start + 8);
    // The old header of the cell copied before is not touched.
    assert forall|x: int| vm.from + ck.start <= x < vm.from + ck.start + 8 implies v1.mem[x]
        == v.mem[x] by {}
    lemma_word_agree(v1.mem, v.mem, vm.from + ck.start);
    assert forall|x: int| payload(v1.to, d) <= x < v1.to + d.start + d.size implies #[trigger] v1.mem[x]
        == vm.mem[x - payload(v1.to, d) + payload(vm.from, ck)] by {
        assert(v1.mem[x] == v.mem[x]);
    }
}

/// The copy of cell `i` is what a copy has to be.
proof fn lemma_move_makes(vm: GcView, v: GcView, i: int, src: Seq<int>)
    requires
        mark_ok(vm),
        copying(vm, v, i, src),
        i < vm.cells.len(),
        marked_at(vm.mem, payload(vm.from, vm.cells[i])),
    ensures
        copy_of(vm, move_stored(vm, v, i), i, src.len() as int),
{
    let v1 = move_stored(vm, v, i);
    let c = vm.cells[i];
    let a = vm.from + c.start;
    let b = v.to + extent(v.to_cells);
    lemma_move_fits(vm, v, i, src);
    lemma_moved(v.mem, a, b, c.size, b + 16, c.desc as int);
    lemma_copy_read(vm, v, i, src);
    let d = v1.to_cells[src.len() as int];
    assert(d == Cell { start: extent(v.to_cells), size: c.size, desc: c.desc });
    assert forall|x: int| payload(v1.to, d) <= x < v1.to + d.start + d.size implies #[trigger] v1.mem[x]
        == vm.mem[x - payload(v1.to, d) + payload(vm.from, c)] by {
        assert(v1.mem[x] == v.mem[x - b + a]);
        lemma_not_moved(vm, i, i, x - b + a);
    }
}

/// What the active half holds stays in order when one more cell is copied.
proof fn lemma_move_from_kept(vm: GcView, v: GcView, i: int, src: Seq<int>)
    requires
        mark_ok(vm),
        copying(vm, v, i, src),
        i < vm.cells.len(),
        marked_at(vm.mem, payload(vm.from, vm.cells[i])),
    ensures
        from_kept(vm, move_stored(vm, v, i).mem, i + 1),
{
    let v1 = move_stored(vm, v, i);
    let c = vm.cells[i];
    let a = vm.from + c.start;
    let b = v.to + extent(v.to_cells);
    lemma_move_fits(vm, v, i, src);
    lemma_moved(v.mem, a, b, c.size, b + 16, c.desc as int);
    assert forall|x: int|
        vm.from <= x < vm.from + vm.chunk && !moved_head_byte(vm, i + 1, x) implies #[trigger] v1.mem[x]
        == vm.mem[x] by {
        if a <= x < a + 8 {
            assert(moved_head_byte(vm, i + 1, x));
        }
        if moved_head_byte(vm, i, x) {
            let j = choose|j: int|
                0 <= j < i && j < vm.cells.len() && marked_at(
                    vm.mem,
                    payload(vm.from, #[trigger] vm.cells[j]),
                ) && vm.from + vm.cells[j].start <= x < vm.from + vm.cells[j].start + 8;
            assert(moved_head_byte(vm, i + 1, x));
        }
        assert(v1.mem[x] == v.mem[x]);
    }
}

/// Copying goes on after a marked cell was copied.
pub(crate) proof fn lemma_copy_move(vm: GcView, v: GcView, i: int, src: Seq<int>)
    requires
        mark_ok(vm),
        copying(vm, v, i, src),
        i < vm.cells.len(),
        marked_at(vm.mem, payload(vm.from, vm.cells[i])),
    ensures
        copying(vm, move_stored(vm, v, i), i + 1, src.push(i)),
{
    let v1 = move_stored(vm, v, i);
    let src1 = src.push(i);
    let c = vm.cells[i];
    let a = vm.from + c.start;
    let b = v.to + extent(v.to_cells);
    lemma_move_fits(vm, v, i, src);
    lemma_moved(v.mem, a, b, c.size, b + 16, c.desc as int);
    lemma_bound(vm, i);
    lemma_move_from_kept(vm, v, i, src);
    assert(cell_ok(c));
    lemma_tiles_push(v.to_cells, Cell { start: extent(v.to_cells), size: c.size, desc: c.desc });
    assert forall|r: int| 0 <= r < src1.len() implies 0 <= #[trigger] src1[r] < i + 1 && copy_of(
        vm,
        v1,
        src1[r],
        r,
    ) by {
        if r < src.len() {
            assert(src1[r] == src[r]);
            lemma_move_keeps(vm, v, i, src, r);
            // The address under which the earlier copy is known stays.
            lemma_tiles_ordered(vm.cells, src[r], i);
        } else {
            lemma_move_makes(vm, v, i, src);
        }
    }
    assert forall|r1: int, r2: int| 0 <= r1 < r2 < src1.len() implies #[trigger] src1[r1]
        < #[trigger] src1[r2] by {
        if r2 < src.len() {
            assert(src[r1] < src[r2]);
        } else {
            assert(src1[r1] == src[r1]);
        }
    }
    assert forall|k: int|
        0 <= k < i + 1 && marked_at(
            vm.mem,
            #[trigger] payload(vm.from, vm.cells[k]),
        ) implies src1.contains(k) by {
        if k < i {
            assert(src.contains(k));
            let r = choose|r: int| 0 <= r < src.len() && src[r] == k;
            assert(src1[r] == k);
        } else {
            assert(src1[src.len() as int] == i);
        }
    }
    assert forall|x: int| #[trigger] v1.fwd.contains_key(x) implies exists|r: int|
        0 <= r < src1.len() && x == payload(vm.from, vm.cells[#[trigger] src1[r]]) by {
        if x == a + 16 {
            assert(src1[src.len() as int] == i);
        } else {
            assert(v.fwd.contains_key(x));
            let r = choose|r: int|
                0 <= r < src.len() && x == payload(vm.from, vm.cells[#[trigger] src[r]]);
            assert(src1[r] == src[r]);
        }
    }
}

/// While copying, the layout of the active half is in order.
pub(crate) proof fn lemma_copy_base(vm: GcView, v: GcView, i: int, src: Seq<int>)
    requires
        mark_ok(vm),
        copying(vm, v, i, src),
    ensures
        base_ok(v),
{
    lemma_copy_read(vm, v, i, src);
    assert forall|k: int| 0 <= k < v.cells.len() implies size_word(
        v.mem,
        v.from,
        #[trigger] v.cells[k],
    ) == v.cells[k].size by {
        let a = vm.from + vm.cells[k].start + 8;
        lemma_tiles_within(vm.cells, k);
        assert forall|x: int| a <= x < a + 8 implies v.mem[x] == vm.mem[x] by {
            lemma_not_moved(vm, i, k, x);
        }
        lemma_word_agree(v.mem, vm.mem, a);
    }
}

/// The state after a free cell was written behind the copies.
pub open spec fn seal_stored(v: GcView) -> GcView {
    let at = v.to + extent(v.to_cells);
    GcView {
        mem: store_word(store_word(v.mem, at, 0), at + 8, v.chunk - extent(v.to_cells)),
        ..v
    }
}

/// Writing the free cell behind the copies leaves the copies and the active
/// half as they are.
pub(crate) proof fn lemma_copy_seal(vm: GcView, v: GcView, src: Seq<int>)
    requires
        mark_ok(vm),
        copying(vm, v, vm.cells.len() as int, src),
        extent(v.to_cells) < vm.chunk,
    ensures
        copying(vm, seal_stored(v), vm.cells.len() as int, src),
        crate::model::free_tail(seal_stored(v).mem, v.to, extent(v.to_cells), v.chunk),
{
    broadcast use crate::mem::group_words;

    let v1 = seal_stored(v);
    let n = vm.cells.len() as int;
    let at = v.to + extent(v.to_cells);
    lemma_extent_aligned(v.to_cells);
    let m1 = store_word(v.mem, at, 0);
    assert forall|x: int| 0 <= x < v.mem.len() && !(at <= x < at + 16) implies v1.mem[x]
        == v.mem[x] by {
        assert(v1.mem[x] == m1[x]);
    }
    assert forall|x: int|
        vm.from <= x < vm.from + vm.chunk && !moved_head_byte(vm, n, x) implies #[trigger] v1.mem[x]
        == vm.mem[x] by {
        assert(v1.mem[x] == v.mem[x]);
    }
    assert forall|r: int| 0 <= r < src.len() implies 0 <= #[trigger] src[r] < n && copy_of(
        vm,
        v1,
        src[r],
        r,
    ) by {
        let k = src[r];
        assert(copy_of(vm, v, k, r));
        let ck = vm.cells[k];
        let d = v.to_cells[r];
        lemma_tiles_within(v.to_cells, r);
        lemma_tiles_within(vm.cells, k);
        assert forall|x: int| v.to + d.start <= x < v.to + d.start + d.size implies v1.mem[x]
            == v.mem[x] by {}
        lemma_word_agree(v1.mem, v.mem, v.to + d.start);
        lemma_word_agree(v1.mem, v.mem, v.to + d.start + 8);
        assert forall|x: int| vm.from + ck.start <= x < vm.from + ck.start + 8 implies v1.mem[x]
            == v.mem[x] by {}
        lemma_word_agree(v1.mem, v.mem, vm.from + ck.start);
        assert forall|x: int| payload(v1.to, d) <= x < v1.to + d.start + d.size implies #[trigger] v1.mem[x]
            == vm.mem[x - payload(v1.to, d) + payload(vm.from, ck)] by {
            assert(v1.mem[x] == v.mem[x]);
        }
    }
}

/// Once every cell was looked at, the copy of cell `k` is where the
/// forwarding address says.
pub(crate) proof fn lemma_copied(vm: GcView, v: GcView, src: Seq<int>, k: int) -> (r: int)
    requires
        mark_ok(vm),
        copying(vm, v, vm.cells.len() as int, src),
        0 <= k < vm.cells.len(),
        marked_at(vm.mem, payload(vm.from, vm.cells[k])),
    ensures
        0 <= r < src.len(),
        src[r] == k,
        copy_of(vm, v, k, r),
{
    assert(src.contains(k));
    let r = choose|r: int| 0 <= r < src.len() && src[r] == k;
    assert(0 <= src[r] && copy_of(vm, v, src[r], r));
    r
}

/// The bytes that the marked cells among the first `i` take.
pub open spec fn marked_bytes(vm: GcView, i: int) -> int
    decreases i,
{
    if i <= 0 {
        0
    } else {
        marked_bytes(vm, i - 1) + if marked_at(vm.mem, payload(vm.from, vm.cells[i - 1])) {
            vm.cells[i - 1].size
        } else {
            0
        }
    }
}

/// The copies lie without gaps: each starts where the marked cells before
/// the one it is the copy of would end.
pub open spec fn packed(vm: GcView, v: GcView, i: int, src: Seq<int>) -> bool {
    &&& extent(v.to_cells) == marked_bytes(vm, i)
    &&& forall|r: int|
        0 <= r < src.len() ==> (#[trigger] v.to_cells[r]).start == marked_bytes(vm, src[r])
}

/// The copies stay without gaps past a cell that is not marked.
pub(crate) proof fn lemma_packed_skip(vm: GcView, v: GcView, i: int, src: Seq<int>)
    requires
        copying(vm, v, i, src),
        packed(vm, v, i, src),
        i < vm.cells.len(),
        !marked_at(vm.mem, payload(vm.from, vm.cells[i])),
    ensures
        packed(vm, v, i + 1, src),
{
}

/// The copies stay without gaps when one more cell is copied.
pub(crate) proof fn lemma_packed_move(vm: GcView, v: GcView, i: int, src: Seq<int>)
    requires
        copying(vm, v, i, src),
        packed(vm, v, i, src),
        i < vm.cells.len(),
        marked_at(vm.mem, payload(vm.from, vm.cells[i])),
    ensures
        packed(vm, move_stored(vm, v, i), i + 1, src.push(i)),
{
    let v1 = move_stored(vm, v, i);
    let src1 = src.push(i);
    assert forall|r: int| 0 <= r < src1.len() implies (#[trigger] v1.to_cells[r]).start
        == marked_bytes(vm, src1[r]) by {
        if r < src.len() {
            assert(v1.to_cells[r] == v.to_cells[r]);
            assert(src1[r] == src[r]);
        }
    }
}

/// Writing the free cell behind the copies leaves them without gaps.
pub(crate) proof fn lemma_packed_seal(vm: GcView, v: GcView, i: int, src: Seq<int>)
    requires
        packed(vm, v, i, src),
    ensures
        packed(vm, seal_stored(v), i, src),
{
}

} // verus!
