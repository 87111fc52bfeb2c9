use ike_gc::gc::{header_from_ptr, ptr_from_header};
use ike_gc::{GCAlloc, GCHeader, Gc, PrefixTable, SizeKind, TaggedPtr, VTPtr, VTable};
use std::cell::RefCell;

struct Cons;

#[test]
fn tagged_ptr_packs_and_unpacks() {
    let t: TaggedPtr<3, u8> = TaggedPtr::new(0x1000, 5);
    assert_eq!(t.ptr(), 0x1000);
    assert_eq!(t.tag(), 5);
    let one: TaggedPtr<1, u8> = TaggedPtr::new(0x10, 1);
    assert_eq!(one.ptr(), 0x10);
    assert_eq!(one.tag(), 1);
    let none: TaggedPtr<0, u8> = TaggedPtr::new(0x11, 0);
    assert_eq!(none.ptr(), 0x11);
    assert_eq!(none.tag(), 0);
}

#[test]
fn tagged_ptr_set_tag_keeps_the_address() {
    let mut t: TaggedPtr<2, u8> = TaggedPtr::new(0xabc0, 3);
    t.set_tag(1);
    assert_eq!(t.ptr(), 0xabc0);
    assert_eq!(t.tag(), 1);
    t.set_tag(0);
    assert_eq!(t.ptr(), 0xabc0);
    assert_eq!(t.tag(), 0);
    // With one tag bit, bit 1 of the address is no tag bit.
    let mut u: TaggedPtr<1, u8> = TaggedPtr::new(0x6, 1);
    assert_eq!(u.ptr(), 0x6);
    u.set_tag(0);
    assert_eq!(u.ptr(), 0x6);
    assert_eq!(u.tag(), 0);
}

#[test]
fn tagged_ptr_set_ptr_keeps_the_tag() {
    let mut t: TaggedPtr<2, u8> = TaggedPtr::new(0x100, 2);
    t.set_ptr(0x2000);
    assert_eq!(t.ptr(), 0x2000);
    assert_eq!(t.tag(), 2);
    t.set_ptr(0);
    assert_eq!(t.ptr(), 0);
    assert_eq!(t.tag(), 2);
}

#[test]
fn tagged_ptr_compares_by_word() {
    let a: TaggedPtr<1, u8> = TaggedPtr::new(0x10, 0);
    let b: TaggedPtr<1, u8> = TaggedPtr::new(0x10, 1);
    let c = a;
    assert!(a == c);
    assert!(a != b);
    assert!(a < b);
    assert_eq!(a.clone().ptr(), 0x10);
}

#[test]
fn vt_ptr_marks_and_unmarks() {
    let mut vt = VTPtr::new(0x40);
    assert_eq!(vt.ptr(), 0x40);
    assert!(!vt.is_marked());
    assert!(!vt.is_free());
    assert_eq!(vt.to_word(), 0x40);
    vt.mark();
    assert!(vt.is_marked());
    assert_eq!(vt.ptr(), 0x40);
    assert_eq!(vt.to_word(), 0x41);
    vt.mark();
    assert_eq!(vt.to_word(), 0x41);
    vt.unmark();
    assert!(!vt.is_marked());
    assert_eq!(vt.to_word(), 0x40);
    let free = VTPtr::new_free();
    assert!(free.is_free());
    assert!(!free.is_marked());
    assert_eq!(free.ptr(), 0);
    let read = VTPtr::from_word(0x87);
    assert_eq!(read.ptr(), 0x86);
    assert!(read.is_marked());
}

#[test]
fn header_mark_tells_whether_it_was_marked() {
    let mut h = GCHeader::new(VTPtr::new(0x20), 48);
    assert_eq!(h.size(), 48);
    assert_eq!(h.get_vt().ptr(), 0x20);
    assert!(!h.mark());
    assert!(h.get_vt().is_marked());
    assert!(h.mark());
    assert_eq!(h.get_vt().ptr(), 0x20);
    h.unmark();
    assert!(!h.get_vt().is_marked());
    assert_eq!(h.size(), 48);
}

#[test]
fn header_holds_a_forwarding_address() {
    let mut h = GCHeader::new(VTPtr::new(0x20), 32);
    h.set_fwd_ptr(0x12345);
    assert_eq!(h.fwd_ptr(), 0x12345);
    assert_eq!(h.size(), 32);
}

#[test]
fn gc_ptr_reads_and_writes() {
    let mut p: Gc<Cons> = Gc::new(0x30);
    assert_eq!(p.get(), 0x30);
    let q = p.clone();
    p.set(0x50);
    assert_eq!(p.get(), 0x50);
    assert_eq!(q.get(), 0x30);
    let r: Gc<u8> = p.cast();
    assert_eq!(r.get(), 0x50);
}

#[test]
fn header_and_payload_are_sixteen_bytes_apart() {
    assert_eq!(header_from_ptr(48), 32);
    assert_eq!(ptr_from_header(32), 48);
    assert_eq!(header_from_ptr(16), 0);
}

#[test]
fn size_kinds() {
    let fixed: SizeKind<fn(usize) -> usize> = SizeKind::fixed(24);
    assert!(matches!(fixed, SizeKind::Fixed(24)));
    let of: SizeKind<fn(usize) -> usize> = SizeKind::of::<u64>();
    assert!(matches!(of, SizeKind::Fixed(8)));
    let by = SizeKind::callback(|addr: usize| addr + 1);
    match by {
        SizeKind::Variable(cb) => assert_eq!(cb(7), 8),
        SizeKind::Fixed(_) => panic!("a callback was given"),
    }
}

#[test]
fn prefix_descriptors() {
    assert_eq!(PrefixTable::descriptor(0), 2);
    assert_eq!(PrefixTable::descriptor(2), 6);
    assert_eq!(PrefixTable::descriptor(7), 16);
}

#[test]
fn words_are_little_endian() {
    let mut gc = GCAlloc::new(64).unwrap();
    let p = gc
        .allocate_typed::<PrefixTable, u8>(&PrefixTable, 2, &[1, 2, 3, 4, 5, 6, 7, 8, 9, 10])
        .unwrap();
    assert_eq!(gc.read_word(p.get()), 0x0807060504030201);
    assert_eq!(gc.read_word(p.get() + 1), 0x0908070605040302);
    gc.write_word(p.get() + 8, 0x1122334455667788);
    assert_eq!(gc.read_word(p.get() + 8), 0x1122334455667788);
    assert_eq!(gc.read_word(p.get() + 4), 0x5566778808070605);
    // The header in front: descriptor 2, unmarked, and 32 bytes.
    assert_eq!(gc.read_word(p.get() - 16), 2);
    assert_eq!(gc.read_word(p.get() - 8), 32);
    let h = gc.header_of(p.get());
    assert_eq!(h.get_vt().ptr(), 2);
    assert!(!h.get_vt().is_marked());
    assert_eq!(h.size(), 32);
}

#[test]
fn metadata_counts() {
    let table = PrefixTable;
    let mut gc = GCAlloc::new(128).unwrap();
    let m = gc.metadata();
    assert_eq!(
        (m.currently_allocated, m.gc_count, m.total_allocated, m.high_water_mark),
        (0, 0, 0, 0)
    );
    gc.allocate(&table, 2, 40).unwrap();
    gc.allocate(&table, 2, 8).unwrap();
    let m = gc.metadata();
    assert_eq!(
        (m.currently_allocated, m.gc_count, m.total_allocated, m.high_water_mark),
        (96, 0, 96, 96)
    );
    gc.collect(&table);
    gc.allocate(&table, 2, 0).unwrap();
    let m = gc.metadata();
    assert_eq!(
        (m.currently_allocated, m.gc_count, m.total_allocated, m.high_water_mark),
        (16, 1, 112, 96)
    );
}

#[test]
fn collecting_is_true_inside_callbacks_only() {
    struct Probe {
        seen: RefCell<Vec<bool>>,
    }
    impl VTable for Probe {
        fn mark_cb(&self, gc: &mut GCAlloc, _ptr: usize) {
            self.seen.borrow_mut().push(gc.collecting());
        }
        fn rewrite_cb(&self, gc: &mut GCAlloc, _ptr: usize) {
            self.seen.borrow_mut().push(gc.collecting());
            // The count rises when the halves change roles, not before.
            assert_eq!(gc.metadata().gc_count, 0);
        }
        fn free_cb(&self, gc: &mut GCAlloc, _ptr: usize) {
            self.seen.borrow_mut().push(gc.collecting());
        }
    }
    let table = Probe { seen: RefCell::new(Vec::new()) };
    let mut gc = GCAlloc::new(64).unwrap();
    assert!(!gc.collecting());
    let kept = gc.allocate(&table, 2, 0).unwrap();
    let _dead = gc.allocate(&table, 2, 0).unwrap();
    let _h = gc.acquire_handle(kept);
    gc.collect(&table);
    assert!(!gc.collecting());
    assert_eq!(*table.seen.borrow(), vec![true, true, true]);
    assert_eq!(gc.metadata().gc_count, 1);
}

#[test]
fn in_young_gen_follows_the_active_half() {
    let table = PrefixTable;
    let mut gc = GCAlloc::new(64).unwrap();
    assert!(gc.in_young_gen(Gc::<u8>::new(16)));
    assert!(gc.in_young_gen(Gc::<u8>::new(63)));
    assert!(!gc.in_young_gen(Gc::<u8>::new(64)));
    gc.collect(&table);
    assert!(!gc.in_young_gen(Gc::<u8>::new(16)));
    assert!(gc.in_young_gen(Gc::<u8>::new(64)));
    assert!(gc.in_young_gen(Gc::<u8>::new(127)));
    assert!(!gc.in_young_gen(Gc::<u8>::new(128)));
}

/// A hand-written descriptor of the two-pointer payload, with a record of the
/// calls that the collector made.
struct ConsTable {
    calls: RefCell<Vec<(&'static str, usize)>>,
}

impl VTable for ConsTable {
    fn mark_cb(&self, gc: &mut GCAlloc, ptr: usize) {
        self.calls.borrow_mut().push(("mark", ptr));
        for slot in [ptr, ptr + 8] {
            let target = gc.read_word(slot);
            if target != 0 {
                gc.mark_accessible(Gc::<Cons>::new(target));
            }
        }
    }

    fn rewrite_cb(&self, gc: &mut GCAlloc, ptr: usize) {
        self.calls.borrow_mut().push(("rewrite", ptr));
        for slot in [ptr, ptr + 8] {
            if gc.read_word(slot) != 0 {
                gc.rewrite_ptr(slot);
            }
        }
    }

    fn free_cb(&self, _gc: &mut GCAlloc, ptr: usize) {
        self.calls.borrow_mut().push(("free", ptr));
    }
}

#[test]
fn callbacks_are_called_in_phase_order() {
    let table = ConsTable { calls: RefCell::new(Vec::new()) };
    let mut gc = GCAlloc::new(256).unwrap();
    let pair = |car: usize, cdr: usize| {
        let mut b = Vec::new();
        b.extend_from_slice(&(car as u64).to_le_bytes());
        b.extend_from_slice(&(cdr as u64).to_le_bytes());
        b
    };
    let a = gc.allocate_typed::<ConsTable, Cons>(&table, 8, &pair(0, 0)).unwrap();
    let dead = gc.allocate_typed::<ConsTable, Cons>(&table, 8, &pair(a.get(), 0)).unwrap();
    let b = gc.allocate_typed::<ConsTable, Cons>(&table, 8, &pair(a.get(), a.get())).unwrap();
    assert_eq!((a.get(), dead.get(), b.get()), (16, 48, 80));
    let hb = gc.acquire_handle(b);
    gc.collect(&table);
    assert_eq!(
        *table.calls.borrow(),
        vec![
            ("mark", 80),
            ("mark", 16),
            ("free", 48),
            ("rewrite", 256 + 16),
            ("rewrite", 256 + 48),
        ]
    );
    let b = gc.get_handle(&hb);
    assert_eq!(b.get(), 256 + 48);
    assert_eq!(gc.read_word(b.get()), 256 + 16);
    assert_eq!(gc.read_word(b.get() + 8), 256 + 16);
}
