//! Storage pool guarded by move-only keys.
//!
//! Storing an item hands back a [`Key`]. The key cannot be cloned or copied,
//! and removing the item consumes it, so a live key always denotes a present
//! item: reading and modifying through a key cannot fail.
//!
//! A key must only be presented to the pool that issued it. This variant
//! performs no run-time ownership check, so presenting a key to a foreign
//! pool addresses whatever the key's raw index happens to reach there; the
//! contracts therefore ask the caller for a key whose slot is occupied.
//!
//! The raw index of a key can be extracted with [`Key::index`] and used for
//! opportunistic, fallible access through [`Slots::try_read`]; such an index
//! carries no validity guarantee.

use vstd::prelude::*;

use core::marker::PhantomData;

use crate::iterator::Iter;
use crate::unrestricted::occupied_count;
use crate::unrestricted::UnrestrictedSlots;

verus! {

/// The key used to access stored elements: a move-only capability for one
/// occupied slot. Its mathematical view is the slot index it denotes.
pub struct Key<IT> {
    index: usize,
    _item_marker: PhantomData<IT>,
}

impl<IT> View for Key<IT> {
    type V = int;

    closed spec fn view(&self) -> int {
        self.index as int
    }
}

impl<IT> Key<IT> {
    /// A key for the slot at `idx`; only the pool itself creates keys.
    fn new(idx: usize) -> (r: Self)
        ensures
            r@ == idx,
    {
        Key { index: idx, _item_marker: PhantomData }
    }

    /// Returns the raw slot index this key denotes.
    ///
    /// The index stays valid only as long as the key exists; after the item
    /// is taken out it addresses a free (or reused) slot.
    pub fn index(&self) -> (r: usize)
        ensures
            r == self@,
    {
        self.index
    }
}

/// Storage pool whose items can only be modified or removed through the
/// move-only [`Key`] returned when they were stored.
///
/// `IT` is the type of the stored items; the number of slots is fixed at
/// construction.
pub struct Slots<IT> {
    inner: UnrestrictedSlots<IT>,
}

impl<IT> View for Slots<IT> {
    type V = Seq<Option<IT>>;

    /// One `Option` per slot: `Some(item)` iff the slot is occupied.
    closed spec fn view(&self) -> Seq<Option<IT>> {
        self.inner@
    }
}

impl<IT> Slots<IT> {
    /// Well-formedness of the underlying pool.
    pub closed spec fn wf(&self) -> bool {
        self.inner.wf()
    }

    /// The slot the next successful `store` will fill (meaningful only while
    /// the pool is not full): the most recently freed slot is reused first.
    pub closed spec fn next_index(&self) -> int {
        self.inner.next_index()
    }

    /// Creates a pool of `capacity` slots, all free.
    pub fn new(capacity: usize) -> (r: Self)
        ensures
            r.wf(),
            r@.len() == capacity,
            forall|i: int| 0 <= i < capacity ==> r@[i] is None,
            capacity > 0 ==> r.next_index() == capacity - 1,
    {
        Slots { inner: UnrestrictedSlots::new(capacity) }
    }

    /// Returns a read-only iterator over the occupied slots, in slot order.
    ///
    /// The order is unrelated to the order in which items were stored.
    pub fn iter(&self) -> (r: Iter<'_, IT>)
        ensures
            r.entries() == self@,
            r.pos() == 0,
    {
        self.inner.iter()
    }

    /// Returns the number of slots.
    pub fn capacity(&self) -> (r: usize)
        ensures
            r == self@.len(),
    {
        self.inner.capacity()
    }

    /// Returns the number of occupied slots.
    pub fn count(&self) -> (r: usize)
        requires
            self.wf(),
        ensures
            r == occupied_count(self@),
    {
        self.inner.count()
    }

    /// Returns whether all slots are occupied, in which case the next
    /// `store` will fail.
    pub fn is_full(&self) -> (r: bool)
        requires
            self.wf(),
        ensures
            r == (occupied_count(self@) == self@.len()),
    {
        self.inner.is_full()
    }

    /// Stores an item into a free slot and returns the key to access it.
    ///
    /// This fails exactly when the pool is full, and failure hands the item
    /// back unchanged.
    pub fn store(&mut self, item: IT) -> (r: Result<Key<IT>, IT>)
        requires
            old(self).wf(),
        ensures
            final(self).wf(),
            match r {
                Ok(key) => {
                    &&& occupied_count(old(self)@) < old(self)@.len()
                    &&& 0 <= key@ < old(self)@.len()
                    &&& key@ == old(self).next_index()
                    &&& old(self)@[key@] is None
                    &&& final(self)@ == old(self)@.update(key@, Some(item))
                    &&& occupied_count(final(self)@) == occupied_count(old(self)@) + 1
                },
                Err(it) => {
                    &&& it == item
                    &&& occupied_count(old(self)@) == old(self)@.len()
                    &&& *final(self) == *old(self)
                },
            },
    {
        match self.inner.store(item) {
            Ok(idx) => Ok(Key::new(idx)),
            Err(it) => Err(it),
        }
    }

    /// Removes and returns the item that belongs to the key, consuming the
    /// key and freeing its slot. The freed slot becomes the next one reused.
    pub fn take(&mut self, key: Key<IT>) -> (r: IT)
        requires
            old(self).wf(),
            0 <= key@ < old(self)@.len(),
            old(self)@[key@] is Some,
        ensures
            final(self).wf(),
            old(self)@[key@] == Some(r),
            final(self)@ == old(self)@.update(key@, None),
            occupied_count(final(self)@) + 1 == occupied_count(old(self)@),
            final(self).next_index() == key@,
    {
        match self.inner.take(key.index()) {
            Some(it) => it,
            None => {
                proof {
                    assert(false);
                }
                vstd::pervasive::unreached()
            },
        }
    }

    /// Reads the item that belongs to the key through the given visitor and
    /// returns the visitor's result. A live key always denotes a present
    /// item, so this cannot fail.
    pub fn read<T, F: FnOnce(&IT) -> T>(&self, key: &Key<IT>, function: F) -> (r: T)
        requires
            self.wf(),
            0 <= key@ < self@.len(),
            self@[key@] is Some,
            forall|x: &IT| self@[key@] == Some(*x) ==> call_requires(function, (x,)),
        ensures
            exists|x: &IT| self@[key@] == Some(*x) && call_ensures(function, (x,), r),
    {
        match self.inner.read(key.index(), function) {
            Some(t) => t,
            None => {
                proof {
                    assert(false);
                }
                vstd::pervasive::unreached()
            },
        }
    }

    /// Reads the item at a raw numeric index through the given visitor.
    ///
    /// The index may address a free slot or lie outside the pool, so this
    /// returns `None` in those cases, without invoking the visitor at all.
    pub fn try_read<T, F: FnOnce(&IT) -> T>(&self, index: usize, function: F) -> (r: Option<T>)
        requires
            forall|x: &IT|
                index < self@.len() && self@[index as int] == Some(*x) ==> call_requires(
                    function,
                    (x,),
                ),
        ensures
            match r {
                Some(t) => {
                    &&& index < self@.len()
                    &&& self@[index as int] is Some
                    &&& exists|x: &IT|
                        self@[index as int] == Some(*x) && call_ensures(function, (x,), t)
                },
                None => !(index < self@.len() && self@[index as int] is Some),
            },
    {
        self.inner.read(index, function)
    }

    /// Gives the given visitor mutable access to the item that belongs to
    /// the key and returns the visitor's result. A live key always denotes
    /// a present item, so this cannot fail.
    pub fn modify<T, F: FnOnce(&mut IT) -> T>(&mut self, key: &Key<IT>, function: F) -> (r: T)
        requires
            old(self).wf(),
            0 <= key@ < old(self)@.len(),
            old(self)@[key@] is Some,
            forall|x: &mut IT|
                old(self)@[key@] == Some(*x) ==> call_requires(function, (x,)),
        ensures
            final(self).wf(),
            final(self)@.len() == old(self)@.len(),
            occupied_count(final(self)@) == occupied_count(old(self)@),
            final(self).next_index() == old(self).next_index(),
            exists|x: &mut IT|
                {
                    &&& *x == old(self)@[key@]->0
                    &&& final(self)@ == old(self)@.update(key@, Some(*final(x)))
                    &&& call_ensures(function, (x,), r)
                },
    {
        match self.inner.modify(key.index(), function) {
            Some(t) => t,
            None => {
                proof {
                    assert(false);
                }
                vstd::pervasive::unreached()
            },
        }
    }
}

} // verus!
