use ike_gc::{GCAlloc, Gc, PrefixTable};

struct Cons;

fn cons_bytes(car: Option<&Gc<Cons>>, cdr: Option<&Gc<Cons>>) -> Vec<u8> {
    let mut bytes = Vec::new();
    bytes.extend_from_slice(&(car.map_or(0, |p| p.get()) as u64).to_le_bytes());
    bytes.extend_from_slice(&(cdr.map_or(0, |p| p.get()) as u64).to_le_bytes());
    bytes
}

fn car(gc: &GCAlloc, cons: &Gc<Cons>) -> Option<Gc<Cons>> {
    let word = gc.read_word(cons.get());
    if word == 0 {
        None
    } else {
        Some(Gc::new(word))
    }
}

fn cdr(gc: &GCAlloc, cons: &Gc<Cons>) -> Option<Gc<Cons>> {
    let word = gc.read_word(cons.get() + 8);
    if word == 0 {
        None
    } else {
        Some(Gc::new(word))
    }
}

#[test]
fn test_main() {
    let table = PrefixTable;
    let cons = PrefixTable::descriptor(2);
    let mut gc = GCAlloc::new(65536).expect("mapping failed");

    let alloc1 = gc
        .allocate_typed::<PrefixTable, Cons>(&table, cons, &cons_bytes(None, None))
        .expect("Malloc failed");
    let alloc2 = gc
        .allocate_typed::<PrefixTable, Cons>(&table, cons, &cons_bytes(Some(&alloc1), None))
        .expect("Malloc failed");
    let alloc3 = gc
        .allocate_typed::<PrefixTable, Cons>(&table, cons, &cons_bytes(Some(&alloc2), None))
        .expect("Malloc failed");

    let _alloc4 = gc
        .allocate_typed::<PrefixTable, Cons>(&table, cons, &cons_bytes(Some(&alloc3), None))
        .expect("Malloc failed");
    let handle3 = gc.acquire_handle(alloc3);

    gc.collect(&table);

    // match structure
    let cons3 = gc.get_handle(&handle3);
    assert!(car(&gc, &cons3).is_some());
    assert!(cdr(&gc, &cons3).is_none());
    let cons2 = car(&gc, &cons3).unwrap();
    assert!(car(&gc, &cons2).is_some());
    assert!(cdr(&gc, &cons2).is_none());
    let cons1 = car(&gc, &cons2).unwrap();
    assert!(car(&gc, &cons1).is_none());
    assert!(cdr(&gc, &cons1).is_none());

    gc.release_handle(handle3);
    gc.collect(&table);
}
