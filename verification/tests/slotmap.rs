use slots::SlotMap;

#[test]
fn key_reuse_triggers() {
    let mut slots: SlotMap<i32> = SlotMap::new(8);

    let k1 = slots.store(5).unwrap();

    assert_eq!(slots.take(k1).unwrap(), 5);

    let k2 = slots.store(6).unwrap();

    // After freeing something, the next allocation goes right back into the
    // same slot: both handles address the same index.
    assert_eq!(k1 % 8, k2 % 8);

    assert_ne!(k1, k2);

    assert_eq!(None, slots.read(k1, |w| *w));

    // This, in addition, relies on the slots being filled from the last one
    // down, and on the generation counter starting at 1.
    assert_eq!(k1, 8 | 7);
    assert_eq!(k2, 16 | 7);
}

#[test]
fn stale_handle_is_rejected_after_reuse() {
    let mut map: SlotMap<i32> = SlotMap::new(4);

    let h1 = map.store(5).unwrap();
    assert_eq!(Some(5), map.take(h1));

    let h2 = map.store(6).unwrap();

    // Both handles address the same underlying slot, yet only the fresh
    // one passes the generation check.
    assert_ne!(h1, h2);
    assert_eq!(None, map.read(h1, |w| *w));
    assert_eq!(Some(6), map.read(h2, |w| *w));
}

#[test]
fn slotmap_modify_changes_the_item() {
    let mut map: SlotMap<i32> = SlotMap::new(4);

    let h = map.store(10).unwrap();

    assert_eq!(
        Some(13),
        map.modify(h, |w| {
            *w += 3;
            *w
        })
    );
    assert_eq!(Some(13), map.read(h, |w| *w));

    // A missing handle modifies nothing.
    assert_eq!(None, map.modify(h.wrapping_add(1), |w| *w));
}

#[test]
fn slotmap_store_fails_when_full() {
    let mut map: SlotMap<u8> = SlotMap::new(2);

    map.store(1).unwrap();
    map.store(2).unwrap();

    assert_eq!(Err(3), map.store(3));
}

#[test]
fn slotmap_zero_capacity() {
    let mut map: SlotMap<u8> = SlotMap::new(0);

    assert_eq!(Err(9), map.store(9));
    assert_eq!(None, map.read(0, |w| *w));
    assert_eq!(None, map.take(0));
}
