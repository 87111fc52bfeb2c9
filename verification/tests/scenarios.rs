use ike_gc::gc::GcError;
use ike_gc::{GCAlloc, Gc, PrefixTable, VTable};
use std::cell::Cell;

struct Cons;

fn word(p: Option<&Gc<Cons>>) -> u64 {
    p.map_or(0, |p| p.get()) as u64
}

fn cons_bytes(car: Option<&Gc<Cons>>, cdr: Option<&Gc<Cons>>) -> Vec<u8> {
    let mut bytes = Vec::new();
    bytes.extend_from_slice(&word(car).to_le_bytes());
    bytes.extend_from_slice(&word(cdr).to_le_bytes());
    bytes
}

fn field(gc: &GCAlloc, cons: &Gc<Cons>, index: usize) -> Option<Gc<Cons>> {
    let w = gc.read_word(cons.get() + 8 * index);
    if w == 0 {
        None
    } else {
        Some(Gc::new(w))
    }
}

fn cons(gc: &mut GCAlloc, table: &impl VTable, car: Option<&Gc<Cons>>) -> Gc<Cons> {
    gc.allocate_typed(table, PrefixTable::descriptor(2), &cons_bytes(car, None))
        .expect("no room")
}

/// The descriptors of `PrefixTable`, counting the payloads destroyed.
struct Counting {
    inner: PrefixTable,
    destroyed: Cell<usize>,
}

impl Counting {
    fn new() -> Self {
        Counting { inner: PrefixTable, destroyed: Cell::new(0) }
    }
}

impl VTable for Counting {
    fn mark_cb(&self, gc: &mut GCAlloc, ptr: usize) {
        self.inner.mark_cb(gc, ptr)
    }

    fn rewrite_cb(&self, gc: &mut GCAlloc, ptr: usize) {
        self.inner.rewrite_cb(gc, ptr)
    }

    fn free_cb(&self, _gc: &mut GCAlloc, _ptr: usize) {
        self.destroyed.set(self.destroyed.get() + 1);
    }
}

/// The cells that a walk over the active half visits: (offset, free, size).
fn walk(gc: &GCAlloc, half: usize, base: usize) -> Vec<(usize, bool, usize)> {
    let mut cells = Vec::new();
    let mut off = 0;
    while off < half {
        let h = gc.header_of(base + off + 16);
        assert!(h.size() >= 16);
        cells.push((off, h.get_vt().is_free(), h.size()));
        off += h.size();
    }
    assert_eq!(off, half);
    cells
}

#[test]
fn linear_chain_is_retained() {
    let table = Counting::new();
    let mut gc = GCAlloc::new(65536).unwrap();
    let c1 = cons(&mut gc, &table, None);
    let c2 = cons(&mut gc, &table, Some(&c1));
    let c3 = cons(&mut gc, &table, Some(&c2));
    let _c4 = cons(&mut gc, &table, Some(&c3));
    assert_eq!(gc.metadata().currently_allocated, 128);
    let h3 = gc.acquire_handle(c3.clone());

    gc.collect(&table);

    assert_eq!(gc.metadata().currently_allocated, 96);
    assert_eq!(gc.metadata().gc_count, 1);
    assert_eq!(table.destroyed.get(), 1);
    let n3 = gc.get_handle(&h3);
    let n2 = field(&gc, &n3, 0).expect("c3.car");
    let n1 = field(&gc, &n2, 0).expect("c2.car");
    assert!(field(&gc, &n1, 0).is_none());
    assert!(field(&gc, &n1, 1).is_none());
    assert!(field(&gc, &n2, 1).is_none());
    assert!(field(&gc, &n3, 1).is_none());
}

#[test]
fn released_root_is_pruned() {
    let table = Counting::new();
    let mut gc = GCAlloc::new(65536).unwrap();
    let c1 = cons(&mut gc, &table, None);
    let c2 = cons(&mut gc, &table, Some(&c1));
    let c3 = cons(&mut gc, &table, Some(&c2));
    let _c4 = cons(&mut gc, &table, Some(&c3));
    let h3 = gc.acquire_handle(c3);
    gc.collect(&table);
    assert_eq!(table.destroyed.get(), 1);

    gc.release_handle(h3);
    gc.collect(&table);

    assert_eq!(gc.metadata().currently_allocated, 0);
    assert_eq!(table.destroyed.get(), 1 + 3);
    assert_eq!(gc.metadata().gc_count, 2);
}

#[test]
fn full_half_triggers_one_collection() {
    let table = PrefixTable;
    let mut gc = GCAlloc::new(128).unwrap();
    for _ in 0..4 {
        cons(&mut gc, &table, None);
    }
    assert_eq!(gc.metadata().gc_count, 0);
    assert_eq!(gc.metadata().currently_allocated, 128);
    let fifth = gc.allocate_typed::<PrefixTable, Cons>(
        &table,
        PrefixTable::descriptor(2),
        &cons_bytes(None, None),
    );
    assert!(fifth.is_some());
    assert_eq!(gc.metadata().gc_count, 1);
    assert_eq!(gc.metadata().currently_allocated, 32);
    assert_eq!(gc.metadata().total_allocated, 160);
    assert_eq!(gc.metadata().high_water_mark, 128);
}

#[test]
fn cycle_survives_repeated_collections() {
    let table = PrefixTable;
    let mut gc = GCAlloc::new(65536).unwrap();
    let a = cons(&mut gc, &table, None);
    let b = cons(&mut gc, &table, Some(&a));
    gc.write_word(a.get(), b.get());
    let ha = gc.acquire_handle(a);
    for round in 1..=3 {
        gc.collect(&table);
        assert_eq!(gc.metadata().gc_count, round);
        assert_eq!(gc.metadata().currently_allocated, 64);
        let a = gc.get_handle(&ha);
        let b = field(&gc, &a, 0).expect("a.car");
        let back = field(&gc, &b, 0).expect("b.car");
        assert_eq!(back.get(), a.get());
        assert!(gc.in_young_gen(a.clone()));
        assert!(gc.in_young_gen(b.clone()));
        assert!(field(&gc, &a, 1).is_none());
        assert!(field(&gc, &b, 1).is_none());
    }
}

#[test]
fn relocation_rewrites_pointers() {
    let table = PrefixTable;
    let mut gc = GCAlloc::new(65536).unwrap();
    let c1 = cons(&mut gc, &table, None);
    let c2 = cons(&mut gc, &table, Some(&c1));
    let c3 = cons(&mut gc, &table, Some(&c2));
    let _c4 = cons(&mut gc, &table, Some(&c3));
    assert_eq!(c1.get(), 16);
    assert_eq!(c2.get(), 48);
    assert_eq!(c3.get(), 80);
    let h3 = gc.acquire_handle(c3.clone());
    let h2 = gc.acquire_handle(c2.clone());

    gc.collect(&table);

    let n3 = gc.get_handle(&h3);
    let n2 = gc.get_handle(&h2);
    assert_ne!(n3.get(), c3.get());
    assert_eq!(n3.get(), 65536 + 80);
    assert_eq!(n2.get(), 65536 + 48);
    assert_eq!(field(&gc, &n3, 0).unwrap().get(), n2.get());
    assert_eq!(field(&gc, &n2, 0).unwrap().get(), 65536 + 16);
    // The stale address is in the half that was given up.
    assert!(!gc.in_young_gen(c3));
    assert!(gc.in_young_gen(n3));
}

#[test]
fn value_is_rewritten_when_allocation_collects() {
    let table = PrefixTable;
    let mut gc = GCAlloc::new(96).unwrap();
    let _garbage = cons(&mut gc, &table, None);
    let kept = cons(&mut gc, &table, None);
    let handle = gc.acquire_handle(kept.clone());
    let _more_garbage = cons(&mut gc, &table, None);
    assert_eq!(gc.metadata().currently_allocated, 96);
    assert_eq!(gc.metadata().gc_count, 0);

    // The fourth allocation finds no room and collects; `kept` moves.
    let fourth = cons(&mut gc, &table, Some(&kept));

    assert_eq!(gc.metadata().gc_count, 1);
    let moved = gc.get_handle(&handle);
    assert_ne!(moved.get(), kept.get());
    assert_eq!(moved.get(), 96 + 16);
    assert_eq!(fourth.get(), 96 + 48);
    assert_eq!(field(&gc, &fourth, 0).unwrap().get(), moved.get());
    assert_eq!(gc.metadata().currently_allocated, 64);
}

#[test]
fn self_reference_points_to_the_new_address() {
    let table = PrefixTable;
    let mut gc = GCAlloc::new(256).unwrap();
    let _garbage = cons(&mut gc, &table, None);
    let a = cons(&mut gc, &table, None);
    gc.write_word(a.get(), a.get());
    gc.write_word(a.get() + 8, a.get());
    let ha = gc.acquire_handle(a.clone());
    gc.collect(&table);
    let moved = gc.get_handle(&ha);
    assert_eq!(moved.get(), 256 + 16);
    assert_eq!(field(&gc, &moved, 0).unwrap().get(), moved.get());
    assert_eq!(field(&gc, &moved, 1).unwrap().get(), moved.get());
    assert_eq!(gc.metadata().currently_allocated, 32);
}

#[test]
fn exact_fit_succeeds_and_one_byte_more_fails() {
    let table = PrefixTable;
    let leaf = PrefixTable::descriptor(0);
    let mut gc = GCAlloc::new(64).unwrap();
    let first = gc.allocate(&table, leaf, 0).unwrap();
    let _h = gc.acquire_handle(first);
    // 48 bytes are free: a payload of 32 bytes takes all of them with its header.
    let mut probe = GCAlloc::new(64).unwrap();
    let p = probe.allocate(&table, leaf, 0).unwrap();
    let _hp = probe.acquire_handle(p);
    assert!(probe.allocate(&table, leaf, 33).is_none());
    assert_eq!(probe.metadata().gc_count, 1);

    let all = gc.allocate(&table, leaf, 32);
    assert!(all.is_some());
    assert_eq!(gc.metadata().currently_allocated, 64);
    assert_eq!(gc.metadata().gc_count, 0);
    // Nothing is left, and one byte is too much even for an empty half.
    let mut fresh = GCAlloc::new(64).unwrap();
    assert!(fresh.allocate(&table, leaf, 48).is_some());
    let mut fresh = GCAlloc::new(64).unwrap();
    assert!(fresh.allocate(&table, leaf, 49).is_none());
    assert_eq!(fresh.metadata().gc_count, 1);
    assert_eq!(fresh.metadata().currently_allocated, 0);
}

#[test]
fn empty_payload_takes_the_smallest_cell() {
    let table = PrefixTable;
    let mut gc = GCAlloc::new(64).unwrap();
    let p = gc.allocate(&table, PrefixTable::descriptor(0), 0).unwrap();
    assert_eq!(p.get(), 16);
    assert_eq!(gc.metadata().currently_allocated, 16);
    assert_eq!(gc.metadata().total_allocated, 16);
    assert_eq!(gc.header_of(p.get()).size(), 16);
    let q = gc.allocate(&table, PrefixTable::descriptor(0), 1).unwrap();
    assert_eq!(q.get(), 32);
    assert_eq!(gc.header_of(q.get()).size(), 32);
    assert_eq!(gc.metadata().currently_allocated, 48);
}

#[test]
fn empty_payload_at_the_end_of_the_half() {
    let table = PrefixTable;
    let leaf = PrefixTable::descriptor(0);
    let mut gc = GCAlloc::new(64).unwrap();
    let first = gc.allocate(&table, leaf, 32).unwrap();
    let last = gc.allocate(&table, leaf, 0).unwrap();
    assert_eq!(gc.metadata().currently_allocated, 64);
    // The empty payload starts where the half ends.
    assert_eq!(last.get(), 64);
    assert!(!gc.in_young_gen(last.clone()));
    let h1 = gc.acquire_handle(first);
    let h2 = gc.acquire_handle(last);
    gc.collect(&table);
    assert_eq!(gc.get_handle(&h1).get(), 64 + 16);
    assert_eq!(gc.get_handle(&h2).get(), 64 + 64);
    assert_eq!(gc.metadata().currently_allocated, 64);
    gc.release_handle(h1);
    gc.collect(&table);
    assert_eq!(gc.get_handle(&h2).get(), 16);
    assert_eq!(gc.metadata().currently_allocated, 16);
    assert_eq!(walk(&gc, 64, 0), vec![(0, false, 16), (16, true, 48)]);
}

#[test]
fn walk_covers_the_half_after_every_step() {
    let table = PrefixTable;
    let mut gc = GCAlloc::new(128).unwrap();
    assert_eq!(walk(&gc, 128, 0), vec![(0, true, 128)]);
    let a = cons(&mut gc, &table, None);
    let _b = gc.allocate(&table, PrefixTable::descriptor(0), 20).unwrap();
    assert_eq!(walk(&gc, 128, 0), vec![(0, false, 32), (32, false, 48), (80, true, 48)]);
    let h = gc.acquire_handle(a);
    gc.collect(&table);
    assert_eq!(walk(&gc, 128, 128), vec![(0, false, 32), (32, true, 96)]);
    assert_eq!(gc.metadata().currently_allocated, 32);
    gc.release_handle(h);
    gc.collect(&table);
    assert_eq!(walk(&gc, 128, 0), vec![(0, true, 128)]);
}

#[test]
fn collecting_an_empty_heap_leaves_it_empty() {
    let table = PrefixTable;
    let mut gc = GCAlloc::new(64).unwrap();
    gc.collect(&table);
    let m = gc.metadata();
    assert_eq!(m.currently_allocated, 0);
    assert_eq!(m.gc_count, 1);
    assert_eq!(m.total_allocated, 0);
    assert_eq!(m.high_water_mark, 0);
    assert_eq!(walk(&gc, 64, 64), vec![(0, true, 64)]);
    assert!(gc.allocate(&table, PrefixTable::descriptor(0), 48).is_some());
}

#[test]
fn collection_right_after_collection_changes_nothing() {
    let table = PrefixTable;
    let mut gc = GCAlloc::new(256).unwrap();
    let a = cons(&mut gc, &table, None);
    let b = cons(&mut gc, &table, Some(&a));
    let _c = cons(&mut gc, &table, None);
    let hb = gc.acquire_handle(b);
    gc.collect(&table);
    let cursor = gc.metadata().currently_allocated;
    let count = gc.metadata().gc_count;
    assert_eq!(cursor, 64);
    gc.collect(&table);
    assert_eq!(gc.metadata().currently_allocated, cursor);
    assert_eq!(gc.metadata().gc_count, count + 1);
    let b = gc.get_handle(&hb);
    assert_eq!(b.get(), 48);
    assert_eq!(field(&gc, &b, 0).unwrap().get(), 16);
}

#[test]
fn full_half_that_survives_has_no_free_cell() {
    let table = PrefixTable;
    let mut gc = GCAlloc::new(64).unwrap();
    let a = cons(&mut gc, &table, None);
    let b = cons(&mut gc, &table, Some(&a));
    let hb = gc.acquire_handle(b);
    gc.collect(&table);
    assert_eq!(gc.metadata().currently_allocated, 64);
    assert_eq!(walk(&gc, 64, 64), vec![(0, false, 32), (32, false, 32)]);
    assert!(gc.allocate(&table, PrefixTable::descriptor(0), 0).is_none());
    assert_eq!(gc.metadata().gc_count, 2);
    assert_eq!(walk(&gc, 64, 0), vec![(0, false, 32), (32, false, 32)]);
    let b = gc.get_handle(&hb);
    assert_eq!(field(&gc, &b, 0).unwrap().get(), 16);
}

#[test]
fn plain_bytes_are_kept_byte_for_byte() {
    let table = PrefixTable;
    let leaf = PrefixTable::descriptor(0);
    let mut gc = GCAlloc::new(256).unwrap();
    let _garbage = gc.allocate_typed::<PrefixTable, u8>(&table, leaf, &[9; 40]).unwrap();
    let data: Vec<u8> = (1..=24).collect();
    let p = gc.allocate_typed::<PrefixTable, u8>(&table, leaf, &data).unwrap();
    let h = gc.acquire_handle(p.clone());
    let before: Vec<usize> = (0..3).map(|i| gc.read_word(p.get() + 8 * i)).collect();
    assert_eq!(before[0], 0x0807060504030201);
    gc.collect(&table);
    let q = gc.get_handle(&h);
    assert_eq!(q.get(), 256 + 16);
    let after: Vec<usize> = (0..3).map(|i| gc.read_word(q.get() + 8 * i)).collect();
    assert_eq!(before, after);
    assert_eq!(gc.metadata().currently_allocated, 48);
}

#[test]
fn mixed_payload_keeps_bytes_and_forwards_pointers() {
    let table = PrefixTable;
    let mut gc = GCAlloc::new(256).unwrap();
    let _garbage = cons(&mut gc, &table, None);
    let target = cons(&mut gc, &table, None);
    let mut bytes = Vec::new();
    bytes.extend_from_slice(&(target.get() as u64).to_le_bytes());
    bytes.extend_from_slice(&0xdead_beef_u64.to_le_bytes());
    bytes.extend_from_slice(&(target.get() as u64).to_le_bytes());
    // One leading pointer; the third word only looks like one.
    let p = gc
        .allocate_typed::<PrefixTable, u8>(&table, PrefixTable::descriptor(1), &bytes)
        .unwrap();
    let h = gc.acquire_handle(p);
    gc.collect(&table);
    let q = gc.get_handle(&h);
    assert_eq!(gc.read_word(q.get()), 256 + 16);
    assert_eq!(gc.read_word(q.get() + 8), 0xdead_beef);
    assert_eq!(gc.read_word(q.get() + 16), target.get());
    assert_eq!(gc.metadata().currently_allocated, 32 + 48);
}

#[test]
fn release_after_acquire_lets_the_payload_go() {
    let table = PrefixTable;
    let mut gc = GCAlloc::new(256).unwrap();
    let a = cons(&mut gc, &table, None);
    let b = cons(&mut gc, &table, None);
    let other = gc.acquire_handle(b.clone());
    let h = gc.acquire_handle(a);
    gc.release_handle(h);
    gc.collect(&table);
    assert_eq!(gc.metadata().currently_allocated, 32);
    assert_eq!(gc.get_handle(&other).get(), 256 + 16);

    // Anchored twice, released once: it stays.
    let second = gc.acquire_handle(gc.get_handle(&other));
    gc.release_handle(other);
    gc.collect(&table);
    assert_eq!(gc.metadata().currently_allocated, 32);
    assert_eq!(gc.get_handle(&second).get(), 16);
    gc.release_handle(second);
    gc.collect(&table);
    assert_eq!(gc.metadata().currently_allocated, 0);
}

#[test]
fn survivors_keep_their_order() {
    let table = PrefixTable;
    let mut gc = GCAlloc::new(512).unwrap();
    let mut handles = Vec::new();
    for i in 0..8usize {
        let p = gc
            .allocate_typed::<PrefixTable, u8>(
                &table,
                PrefixTable::descriptor(0),
                &(i as u64).to_le_bytes(),
            )
            .unwrap();
        if i % 3 == 0 {
            handles.push((i, gc.acquire_handle(p)));
        }
    }
    // Handles taken in another order than the cells lie.
    handles.reverse();
    gc.collect(&table);
    assert_eq!(gc.metadata().currently_allocated, 3 * 32);
    for (i, h) in handles.iter() {
        let p = gc.get_handle(h);
        assert_eq!(p.get(), 512 + (i / 3) * 32 + 16);
        assert_eq!(gc.read_word(p.get()), *i);
    }
}

/// Descriptors whose marking callback asks for memory, which a collection
/// under way refuses.
struct Greedy {
    refused: Cell<usize>,
}

impl VTable for Greedy {
    fn mark_cb(&self, gc: &mut GCAlloc, _ptr: usize) {
        let before = gc.metadata();
        if gc.allocate(&PrefixTable, 2, 0).is_none() {
            self.refused.set(self.refused.get() + 1);
        }
        assert_eq!(gc.metadata().currently_allocated, before.currently_allocated);
        assert_eq!(gc.metadata().gc_count, before.gc_count);
    }

    fn rewrite_cb(&self, _gc: &mut GCAlloc, _ptr: usize) {
    }

    fn free_cb(&self, _gc: &mut GCAlloc, _ptr: usize) {
    }
}

#[test]
fn allocation_during_collection_is_refused() {
    let table = Greedy { refused: Cell::new(0) };
    let mut gc = GCAlloc::new(64).unwrap();
    let p = gc.allocate(&table, 2, 0).unwrap();
    let _h = gc.acquire_handle(p);
    gc.collect(&table);
    assert_eq!(table.refused.get(), 1);
    assert_eq!(gc.metadata().currently_allocated, 16);
}

#[test]
fn too_large_a_request_collects_and_fails() {
    let table = PrefixTable;
    let mut gc = GCAlloc::new(64).unwrap();
    assert!(gc.allocate(&table, 2, usize::MAX).is_none());
    assert_eq!(gc.metadata().gc_count, 1);
    assert!(gc.allocate(&table, 2, usize::MAX - 31).is_none());
    assert_eq!(gc.metadata().gc_count, 2);
    assert!(gc.allocate(&table, 2, 1000).is_none());
    assert_eq!(gc.metadata().gc_count, 3);
    assert_eq!(gc.metadata().total_allocated, 0);
}

#[test]
fn mapping_that_cannot_be_granted_is_an_error() {
    // Twice this is more than `isize::MAX` bytes.
    assert!(matches!(GCAlloc::new(1 << 62), Err(GcError::MapFailed)));
    assert!(matches!(GCAlloc::new((1 << 62) + 16), Err(GcError::MapFailed)));
}

#[test]
fn new_collector_is_fresh() {
    let gc = GCAlloc::new(4096).expect("mapping failed");
    let m = gc.metadata();
    assert_eq!(
        (m.currently_allocated, m.gc_count, m.total_allocated, m.high_water_mark),
        (0, 0, 0, 0)
    );
    assert!(!gc.collecting());
    assert!(gc.in_young_gen(Gc::<u8>::new(4095)));
    assert!(!gc.in_young_gen(Gc::<u8>::new(4096)));
    // Both halves are mapped: the last word of the second is there to read.
    let _ = gc.read_word(2 * 4096 - 8);
    assert_eq!(walk(&gc, 4096, 0), vec![(0, true, 4096)]);
}

#[test]
fn outcome_of_mapping_decides_the_collector() {
    let refused = std::io::Error::new(std::io::ErrorKind::OutOfMemory, "refused");
    assert!(matches!(GCAlloc::from_mapped(Err(refused), 32), Err(GcError::MapFailed)));
    let granted = memmap2::MmapMut::map_anon(64);
    assert!(granted.is_ok());
    let gc = GCAlloc::from_mapped(granted, 32).expect("a mapping was given");
    let m = gc.metadata();
    assert_eq!(
        (m.currently_allocated, m.gc_count, m.total_allocated, m.high_water_mark),
        (0, 0, 0, 0)
    );
    assert!(!gc.collecting());
    assert!(gc.in_young_gen(Gc::<u8>::new(31)));
    assert!(!gc.in_young_gen(Gc::<u8>::new(32)));
    assert_eq!(walk(&gc, 32, 0), vec![(0, true, 32)]);
}

#[test]
fn collector_over_a_given_mapping() {
    let mmap = memmap2::MmapMut::map_anon(64).unwrap();
    let mut gc = GCAlloc::with_mapping(mmap, 32);
    assert_eq!(walk(&gc, 32, 0), vec![(0, true, 32)]);
    let p = gc.allocate(&PrefixTable, 2, 8).unwrap();
    assert_eq!(p.get(), 16);
    let _h = gc.acquire_handle(p);
    assert!(gc.allocate(&PrefixTable, 2, 0).is_none());
    assert_eq!(gc.metadata().gc_count, 1);
    assert_eq!(gc.metadata().currently_allocated, 32);
}

#[test]
fn many_handles_are_rewritten() {
    let table = PrefixTable;
    let mut gc = GCAlloc::new(4096).unwrap();
    let mut handles = Vec::new();
    for i in 0..40usize {
        let _garbage = cons(&mut gc, &table, None);
        let p = gc
            .allocate_typed::<PrefixTable, u8>(
                &table,
                PrefixTable::descriptor(0),
                &(i as u64).to_le_bytes(),
            )
            .unwrap();
        handles.push(gc.acquire_handle(p));
    }
    // Release every other handle, so that the table has holes.
    let mut kept = Vec::new();
    for (i, h) in handles.into_iter().enumerate() {
        if i % 2 == 0 {
            gc.release_handle(h);
        } else {
            kept.push((i, h));
        }
    }
    gc.collect(&table);
    assert_eq!(gc.metadata().currently_allocated, 20 * 32);
    for (n, (i, h)) in kept.iter().enumerate() {
        let p = gc.get_handle(h);
        assert_eq!(p.get(), 4096 + n * 32 + 16);
        assert_eq!(gc.read_word(p.get()), *i);
    }
}
