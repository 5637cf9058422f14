use core::cell::Cell;

use slots::slots::Slots;
use slots::unrestricted::UnrestrictedSlots;
use slots::SlotMap;

#[test]
fn stores_succeed_until_full_then_hand_the_item_back() {
    let mut slots: UnrestrictedSlots<u8> = UnrestrictedSlots::new(3);

    for n in 0..3u8 {
        assert_eq!(slots.count(), n as usize);
        assert!(slots.store(n).is_ok());
        assert_eq!(slots.count(), n as usize + 1);
    }

    assert!(slots.is_full());
    assert_eq!(Err(9), slots.store(9));
    assert_eq!(slots.count(), 3);
}

#[test]
fn round_trip_returns_the_item_and_frees_the_slot() {
    let mut slots: Slots<i32> = Slots::new(2);

    let k = slots.store(42).unwrap();
    assert_eq!(1, slots.count());

    assert_eq!(42, slots.take(k));
    assert_eq!(0, slots.count());

    // the freed slot is usable again
    let k2 = slots.store(7).unwrap();
    assert_eq!(7, slots.read(&k2, |&w| w));
}

#[test]
fn taken_index_reads_absent_not_stale() {
    let mut slots: UnrestrictedSlots<i32> = UnrestrictedSlots::new(4);

    let i = slots.store(11).unwrap();
    assert_eq!(Some(11), slots.take(i));
    assert_eq!(None, slots.read(i, |&w| w));
    assert_eq!(None, slots.take(i));
}

#[test]
fn freed_slot_is_reused_first() {
    let mut slots: UnrestrictedSlots<i32> = UnrestrictedSlots::new(4);

    let _a = slots.store(1).unwrap();
    let b = slots.store(2).unwrap();
    let _c = slots.store(3).unwrap();

    slots.take(b);
    let d = slots.store(4).unwrap();

    assert_eq!(b, d);
}

#[test]
fn three_stored_one_taken_leaves_the_other_two() {
    let mut slots: Slots<i32> = Slots::new(3);

    let _k1 = slots.store(1).unwrap();
    let k2 = slots.store(2).unwrap();
    let _k3 = slots.store(3).unwrap();

    let old_index = k2.index();
    slots.take(k2);

    assert_eq!(2, slots.count());
    assert_eq!(None, slots.try_read(old_index, |&w| w));

    let mut seen = Vec::new();
    let mut iter = slots.iter();
    while let Some(&w) = iter.next() {
        seen.push(w);
    }
    seen.sort();
    assert_eq!(vec![1, 3], seen);
}

#[test]
fn zero_capacity_pools_reject_everything() {
    let mut plain: UnrestrictedSlots<u8> = UnrestrictedSlots::new(0);

    assert_eq!(plain.capacity(), 0);
    assert!(plain.is_full());
    assert_eq!(Err(5), plain.store(5));
    assert_eq!(None, plain.read(0, |&w| w));
    assert_eq!(None, plain.take(0));
}

#[test]
fn visitor_is_not_called_for_absent_slots() {
    let calls = Cell::new(0u32);

    let mut plain: UnrestrictedSlots<i32> = UnrestrictedSlots::new(4);
    let i = plain.store(1).unwrap();
    plain.take(i);

    assert_eq!(
        None,
        plain.read(i, |_| {
            calls.set(calls.get() + 1);
            0
        })
    );
    assert_eq!(
        None,
        plain.modify(99, |_| {
            calls.set(calls.get() + 1);
            0
        })
    );

    let keyed: Slots<i32> = Slots::new(4);
    assert_eq!(
        None,
        keyed.try_read(0, |_| {
            calls.set(calls.get() + 1);
            0
        })
    );

    let mut map: SlotMap<i32> = SlotMap::new(4);
    let h = map.store(3).unwrap();
    map.take(h);
    assert_eq!(
        None,
        map.read(h, |_| {
            calls.set(calls.get() + 1);
            0
        })
    );
    assert_eq!(
        None,
        map.modify(h, |_| {
            calls.set(calls.get() + 1);
            0
        })
    );

    assert_eq!(0, calls.get());
}
