use slots::slots::Slots;
use slots::unrestricted::UnrestrictedSlots;

#[test]
fn sanity_check() {
    let mut slots: Slots<i32> = Slots::new(3);

    let _k1 = slots.store(1).unwrap();
    let k2 = slots.store(2).unwrap();
    let _k3 = slots.store(3).unwrap();

    slots.take(k2);

    let mut iter = slots.iter();
    // iterator does not return elements in order of store
    assert_eq!(Some(&3), iter.next());
    assert_eq!(Some(&1), iter.next());
    assert_eq!(None, iter.next());

    let mut drain = slots.iter();
    while let Some(&_) = drain.next() {}
}

#[test]
fn test_mut() {
    let mut slots: UnrestrictedSlots<i32> = UnrestrictedSlots::new(3);

    let _k1 = slots.store(1).unwrap();
    let k2 = slots.store(2).unwrap();
    let _k3 = slots.store(3).unwrap();

    let mut cursor = slots.iter_mut();
    while let Some(k) = cursor.next(&mut slots) {
        *k *= 2;
    }

    assert_eq!(Some(4), slots.take(k2));
}

#[test]
fn iterating_an_empty_pool_yields_nothing() {
    let slots: Slots<u8> = Slots::new(4);

    let mut iter = slots.iter();
    assert_eq!(None, iter.next());
}

#[test]
fn mutable_cursor_skips_free_slots() {
    let mut slots: UnrestrictedSlots<i32> = UnrestrictedSlots::new(4);

    let _a = slots.store(1).unwrap();
    let b = slots.store(2).unwrap();
    let _c = slots.store(3).unwrap();
    slots.take(b);

    let mut visited: u32 = 0;
    let mut cursor = slots.iter_mut();
    while let Some(k) = cursor.next(&mut slots) {
        *k += 10;
        visited += 1;
    }

    assert_eq!(2, visited);
    assert_eq!(Some(11), slots.read(3, |&w| w));
    assert_eq!(Some(13), slots.read(1, |&w| w));
}
