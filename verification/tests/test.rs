use slots::slots::Slots;

#[test]
fn key_can_be_used_to_read_value() {
    let mut slots: Slots<i32> = Slots::new(8);
    let k1 = slots.store(5).unwrap();

    assert_eq!(5, slots.read(&k1, |&w| w));
}

#[test]
fn size_can_be_1() {
    let mut slots: Slots<i32> = Slots::new(1);
    let k1 = slots.store(5).unwrap();

    assert_eq!(5, slots.read(&k1, |&w| w));

    assert_eq!(1, slots.count());
    slots.take(k1);
    assert_eq!(0, slots.count());

    // test that we can fill the storage again
    slots.store(6).unwrap();
    assert_eq!(1, slots.count());
}

#[test]
fn cant_read_outside_bounds() {
    let mut slots: Slots<i32> = Slots::new(1);
    let _k1 = slots.store(5).unwrap();

    assert!(slots.try_read(slots.capacity(), |_| 0).is_none());
}

#[test]
fn index_can_be_used_to_read_value() {
    let mut slots: Slots<i32> = Slots::new(8);

    slots.store(5).unwrap();
    slots.store(6).unwrap();
    slots.store(7).unwrap();

    assert_eq!(5, slots.try_read(7, |&w| w).unwrap());
    assert_eq!(6, slots.try_read(6, |&w| w).unwrap());
    assert_eq!(7, slots.try_read(5, |&w| w).unwrap());
}

#[test]
fn trying_to_read_missing_element_returns_none() {
    let slots: Slots<u8> = Slots::new(8);

    assert_eq!(None, slots.try_read(0, |&w| w));
}

#[test]
fn trying_to_read_deleted_element_returns_none() {
    let mut slots: Slots<u8> = Slots::new(8);

    slots.store(5).unwrap();
    let k = slots.store(6).unwrap();
    slots.store(7).unwrap();

    let idx = k.index(); //k will be consumed

    slots.take(k);

    assert_eq!(None, slots.try_read(idx, |&w| w));
}

#[test]
fn elements_can_be_modified_using_key() {
    let mut slots: Slots<u8> = Slots::new(8);

    let k = slots.store(5).unwrap();

    assert_eq!(
        7,
        slots.modify(&k, |w| {
            *w = *w + 2;
            *w
        })
    );
    assert_eq!(7, slots.read(&k, |&w| w));
}

#[test]
fn store_returns_err_when_full() {
    let mut slots: Slots<u8> = Slots::new(1);

    slots.store(5).unwrap();

    let k2 = slots.store(5);

    assert!(k2.is_err());
}

#[test]
fn use_across_slots_no_verify() {
    let mut a: Slots<u8> = Slots::new(4);
    let mut b: Slots<u8> = Slots::new(4);

    let k = a.store(5).expect("There should be room");
    // Store an element in b so we don't get a different panic
    let _ = b.store(6).expect("There should be room");

    assert_eq!(6, b.take(k));
}

#[test]
fn capacity_and_count() {
    let mut slots: Slots<u8> = Slots::new(4);

    assert_eq!(slots.capacity(), 4);
    assert_eq!(slots.count(), 0);

    let k1 = slots.store(1).unwrap();
    let k2 = slots.store(2).unwrap();

    assert_eq!(slots.count(), 2);

    let k3 = slots.store(3).unwrap();
    let k4 = slots.store(4).unwrap();

    assert_eq!(slots.count(), 4);

    slots.take(k1);
    slots.take(k2);
    slots.take(k3);
    slots.take(k4);

    assert_eq!(slots.count(), 0);
}

#[test]
fn zero_sized_collection() {
    let mut slots: Slots<u8> = Slots::new(0);

    assert_eq!(slots.capacity(), 0);
    assert_eq!(slots.count(), 0);

    let k1 = slots.store(1);

    assert!(k1.is_err());
    assert!(slots.try_read(0, |_| { 0 }).is_none());
}
