//! Storage pool addressed by plain numeric indices.
//!
//! Items are stored into free slots and addressed by the `usize` index of
//! the slot. Nothing guards an index: it can be copied freely, it may be out
//! of range, and it may point at a slot that was freed and reused since the
//! index was obtained. Every access is therefore fallible and bounds-checked.
//!
//! The pool is modelled as a sequence of `Option` values, one per slot:
//! `Some(item)` for an occupied slot, `None` for a free one. The free slots
//! are additionally threaded on an intrusive chain so that allocation and
//! deallocation are O(1); the chain is pure implementation detail and does
//! not show up in the model.

use vstd::prelude::*;

use crate::iterator::Iter;
use crate::iterator::IterMut;
use crate::private::options_of;
use crate::private::Entry;

verus! {

/// Number of occupied positions of a pool model.
pub open spec fn occupied_count<IT>(s: Seq<Option<IT>>) -> nat
    decreases s.len(),
{
    if s.len() == 0 {
        0
    } else {
        occupied_count(s.drop_last()) + if s.last() is Some {
            1nat
        } else {
            0nat
        }
    }
}

/// Changing one position changes the occupied count by at most one,
/// according to what the position held before and holds afterwards.
pub proof fn lemma_occupied_count_update<IT>(s: Seq<Option<IT>>, i: int, v: Option<IT>)
    requires
        0 <= i < s.len(),
    ensures
        occupied_count(s.update(i, v)) + (if s[i] is Some {
            1int
        } else {
            0int
        }) == occupied_count(s) + (if v is Some {
            1int
        } else {
            0int
        }),
    decreases s.len(),
{
    let s2 = s.update(i, v);
    if i == s.len() - 1 {
        assert(s2.drop_last() =~= s.drop_last());
    } else {
        assert(s2.drop_last() =~= s.drop_last().update(i, v));
        lemma_occupied_count_update(s.drop_last(), i, v);
    }
}

/// A pool with no occupied position has occupied count zero.
pub proof fn lemma_occupied_count_all_free<IT>(s: Seq<Option<IT>>)
    requires
        forall|i: int| 0 <= i < s.len() ==> s[i] is None,
    ensures
        occupied_count(s) == 0,
    decreases s.len(),
{
    if s.len() > 0 {
        lemma_occupied_count_all_free(s.drop_last());
    }
}

/// The occupied count never exceeds the number of slots.
pub proof fn lemma_occupied_count_le_len<IT>(s: Seq<Option<IT>>)
    ensures
        occupied_count(s) <= s.len(),
    decreases s.len(),
{
    if s.len() > 0 {
        lemma_occupied_count_le_len(s.drop_last());
    }
}

/// Storage pool addressed by plain numeric indices.
///
/// `IT` is the type of the stored items; the number of slots is fixed at
/// construction.
pub struct UnrestrictedSlots<IT> {
    items: Vec<Entry<IT>>,
    next_free: usize,
    count: usize,
    free_list: Ghost<Seq<int>>,
}

impl<IT> View for UnrestrictedSlots<IT> {
    type V = Seq<Option<IT>>;

    /// One `Option` per slot: `Some(item)` iff the slot is occupied.
    closed spec fn view(&self) -> Seq<Option<IT>> {
        options_of(self.items@)
    }
}

impl<IT> UnrestrictedSlots<IT> {
    /// Well-formedness: the occupancy counter matches the model, and the
    /// free chain, followed from `next_free` through the `EmptyNext` links,
    /// visits every free slot exactly once and ends at an `EmptyLast`.
    ///
    /// The chain is witnessed by the ghost sequence `free_list`, whose order
    /// is the order of the chain links.
    pub closed spec fn wf(&self) -> bool {
        let s = self.items@;
        let fl = self.free_list@;
        &&& self.count == occupied_count(self@)
        &&& fl.len() + self.count == s.len()
        &&& forall|k: int| 0 <= k < fl.len() ==> 0 <= #[trigger] fl[k] < s.len()
        &&& forall|i: int| 0 <= i < s.len() ==> ((#[trigger] s[i] is Used) <==> !fl.contains(i))
        &&& fl.no_duplicates()
        &&& fl.len() > 0 ==> self.next_free == fl[0]
        &&& forall|k: int|
            0 <= k < fl.len() - 1 ==> #[trigger] s[fl[k]] == Entry::<IT>::EmptyNext(
                fl[k + 1] as usize,
            )
        &&& fl.len() > 0 ==> s[fl.last()] is EmptyLast
    }

    /// The slot the next successful `store` will fill (meaningful only while
    /// the pool is not full). Freeing always pushes the freed slot here, so
    /// the most recently freed slot is reused first.
    pub closed spec fn next_index(&self) -> int {
        self.free_list@[0]
    }

    /// Creates a pool of `capacity` slots, all free.
    pub fn new(capacity: usize) -> (r: Self)
        ensures
            r.wf(),
            r@.len() == capacity,
            forall|i: int| 0 <= i < capacity ==> r@[i] is None,
            capacity > 0 ==> r.next_index() == capacity - 1,
    {
        let mut items: Vec<Entry<IT>> = Vec::new();
        let mut i: usize = 0;
        while i < capacity
            invariant
                i <= capacity,
                items@.len() == i,
                forall|j: int| 0 <= j < i ==> #[trigger] items@[j] == initial_entry::<IT>(j),
            decreases capacity - i,
        {
            if i == 0 {
                items.push(Entry::EmptyLast);
            } else {
                items.push(Entry::EmptyNext(i - 1));
            }
            i += 1;
        }
        let r = UnrestrictedSlots {
            items,
            next_free: if capacity == 0 {
                0
            } else {
                capacity - 1
            },
            count: 0,
            free_list: Ghost(Seq::new(capacity as nat, |k: int| capacity - 1 - k)),
        };
        proof {
            assert forall|i: int| 0 <= i < capacity implies r@[i] is None by {
                assert(r.items@[i] == initial_entry::<IT>(i));
            }
            lemma_occupied_count_all_free(r@);
            let fl = r.free_list@;
            assert forall|i: int| 0 <= i < capacity implies !(r.items@[i] is Used) && fl.contains(
                i,
            ) by {
                assert(r.items@[i] == initial_entry::<IT>(i));
                assert(fl[capacity - 1 - i] == i);
            }
            assert forall|k: int| 0 <= k < fl.len() - 1 implies r.items@[fl[k]]
                == Entry::<IT>::EmptyNext(fl[k + 1] as usize) by {
                assert(r.items@[fl[k]] == initial_entry::<IT>(fl[k]));
            }
            if capacity > 0 {
                assert(r.items@[fl.last()] == initial_entry::<IT>(0));
            }
        }
        r
    }

    /// Returns a read-only iterator over the occupied slots, in slot order.
    ///
    /// The order is unrelated to the order in which items were stored.
    pub fn iter(&self) -> (r: Iter<'_, IT>)
        ensures
            r.entries() == self@,
            r.pos() == 0,
    {
        Iter::from_entry_slice(self.items.as_slice())
    }

    /// Returns a read-write cursor over the occupied slots. The pool itself
    /// is handed to every `next` call of the cursor.
    pub fn iter_mut(&mut self) -> (r: IterMut)
        ensures
            *final(self) == *old(self),
            r.pos() == 0,
    {
        IterMut::from_start()
    }

    /// Returns the number of slots.
    pub fn capacity(&self) -> (r: usize)
        ensures
            r == self@.len(),
    {
        self.items.len()
    }

    /// Returns the number of occupied slots.
    pub fn count(&self) -> (r: usize)
        requires
            self.wf(),
        ensures
            r == occupied_count(self@),
    {
        self.count
    }

    /// Returns whether all slots are occupied, in which case the next
    /// `store` will fail.
    pub fn is_full(&self) -> (r: bool)
        requires
            self.wf(),
        ensures
            r == (occupied_count(self@) == self@.len()),
    {
        proof {
            lemma_occupied_count_le_len(self@);
        }
        self.count == self.items.len()
    }
}

impl<IT> UnrestrictedSlots<IT> {
    /// The state between popping a slot off the free chain and filling it
    /// (or between vacating a slot and pushing it back): slot `idx` is
    /// neither occupied nor on the chain, and the counter still counts it.
    spec fn wf_vacant(&self, idx: int) -> bool {
        let s = self.items@;
        let fl = self.free_list@;
        &&& 0 <= idx < s.len()
        &&& !(s[idx] is Used)
        &&& !fl.contains(idx)
        &&& self.count == occupied_count(self@) + 1
        &&& fl.len() + self.count == s.len()
        &&& forall|k: int| 0 <= k < fl.len() ==> 0 <= #[trigger] fl[k] < s.len()
        &&& forall|i: int|
            0 <= i < s.len() && i != idx ==> ((#[trigger] s[i] is Used) <==> !fl.contains(i))
        &&& fl.no_duplicates()
        &&& fl.len() > 0 ==> self.next_free == fl[0]
        &&& forall|k: int|
            0 <= k < fl.len() - 1 ==> #[trigger] s[fl[k]] == Entry::<IT>::EmptyNext(
                fl[k + 1] as usize,
            )
        &&& fl.len() > 0 ==> s[fl.last()] is EmptyLast
    }

    /// Pops the top of the free chain and counts the slot as occupied; the
    /// caller is expected to fill it. `None` exactly when the pool is full.
    fn allocate(&mut self) -> (r: Option<usize>)
        requires
            old(self).wf(),
        ensures
            match r {
                None => {
                    &&& *final(self) == *old(self)
                    &&& occupied_count(old(self)@) == old(self)@.len()
                },
                Some(index) => {
                    &&& occupied_count(old(self)@) < old(self)@.len()
                    &&& index == old(self).next_index()
                    &&& 0 <= index < old(self)@.len()
                    &&& old(self)@[index as int] is None
                    &&& final(self)@ == old(self)@
                    &&& final(self).count == old(self).count + 1
                    &&& final(self).wf_vacant(index as int)
                },
            },
    {
        proof {
            lemma_occupied_count_le_len(self@);
        }
        if self.count == self.items.len() {
            None
        } else {
            let ghost fl = self.free_list@;
            let index = self.next_free;
            assert(index == fl[0] && 0 <= fl[0] < self.items@.len());
            let next = match &self.items[index] {
                Entry::EmptyNext(n) => *n,
                Entry::EmptyLast => 0,
                Entry::Used(_) => {
                    proof {
                        assert(fl.contains(fl[0]));
                        assert(false);
                    }
                    0
                },
            };
            self.next_free = next;
            self.count = self.count + 1;
            proof {
                self.free_list = Ghost(fl.drop_first());
                assert(self@ =~= old(self)@);
                let fl2 = self.free_list@;
                assert forall|i: int| fl2.contains(i) implies fl.contains(i) by {
                    let k = choose|k: int| 0 <= k < fl2.len() && fl2[k] == i;
                    assert(fl[k + 1] == i);
                }
                assert forall|i: int| i != index && fl.contains(i) implies fl2.contains(i) by {
                    let k = choose|k: int| 0 <= k < fl.len() && fl[k] == i;
                    assert(k != 0);
                    assert(fl2[k - 1] == i);
                }
                assert(!fl2.contains(index as int)) by {
                    if fl2.contains(index as int) {
                        let k = choose|k: int| 0 <= k < fl2.len() && fl2[k] == index;
                        assert(fl[k + 1] == index && fl[0] == index);
                    }
                }
                if fl.len() > 1 {
                    assert(self.items@[fl[0]] == Entry::<IT>::EmptyNext(fl[1] as usize));
                    assert(self.next_free == fl2[0]);
                }
            }
            Some(index)
        }
    }

    /// Pushes the vacated slot `idx` back on top of the free chain and
    /// uncounts it. The most recently freed slot is thereby the next reused.
    fn free(&mut self, idx: usize)
        requires
            old(self).wf_vacant(idx as int),
        ensures
            final(self).wf(),
            final(self)@ == old(self)@,
            final(self).count == old(self).count - 1,
            final(self).next_index() == idx,
    {
        let entry = if self.count == self.items.len() {
            Entry::EmptyLast
        } else {
            Entry::EmptyNext(self.next_free)
        };
        self.items.set(idx, entry);
        self.next_free = idx;
        self.count = self.count - 1;
        proof {
            let ghost fl = old(self).free_list@;
            self.free_list = Ghost(seq![idx as int] + fl);
            assert(self@ =~= old(self)@);
            let fl2 = self.free_list@;
            let s = self.items@;
            assert(forall|k: int| 0 <= k < fl.len() ==> fl2[k + 1] == #[trigger] fl[k]);
            assert forall|i: int|
                0 <= i < s.len() implies ((#[trigger] s[i] is Used) <==> !fl2.contains(i)) by {
                if i == idx {
                    assert(fl2[0] == i);
                } else {
                    assert(fl.contains(i) ==> fl2.contains(i)) by {
                        if fl.contains(i) {
                            let k = choose|k: int| 0 <= k < fl.len() && fl[k] == i;
                            assert(fl2[k + 1] == i);
                        }
                    }
                    assert(fl2.contains(i) ==> fl.contains(i)) by {
                        if fl2.contains(i) {
                            let k = choose|k: int| 0 <= k < fl2.len() && fl2[k] == i;
                            assert(k != 0);
                            assert(fl[k - 1] == i);
                        }
                    }
                }
            }
            assert(fl2.no_duplicates()) by {
                assert forall|j: int, k: int|
                    0 <= j < fl2.len() && 0 <= k < fl2.len() && j != k implies fl2[j] != fl2[k] by {
                    if j != 0 && k != 0 {
                        assert(fl[j - 1] == fl2[j] && fl[k - 1] == fl2[k]);
                    } else if j == 0 {
                        assert(!fl.contains(idx as int) && (k != 0 ==> fl[k - 1] == fl2[k]));
                    } else {
                        assert(!fl.contains(idx as int) && fl[j - 1] == fl2[j]);
                    }
                }
            }
            if fl.len() == 0 {
                assert(old(self).count == self.items@.len());
                assert(s[fl2.last()] is EmptyLast);
            } else {
                assert(old(self).count < self.items@.len()) by {
                    lemma_occupied_count_le_len(old(self)@);
                }
                assert(s[fl2[0]] == Entry::<IT>::EmptyNext(fl2[1] as usize));
                assert(s[fl2.last()] is EmptyLast);
            }
        }
    }
}

impl<IT> UnrestrictedSlots<IT> {
    /// Stores an item into a free slot and returns the slot's index.
    ///
    /// This fails exactly when the pool is full, and failure hands the item
    /// back unchanged. A successful store fills the most recently freed
    /// slot, so its index may repeat an index handed out earlier.
    pub fn store(&mut self, item: IT) -> (r: Result<usize, IT>)
        requires
            old(self).wf(),
        ensures
            final(self).wf(),
            match r {
                Ok(index) => {
                    &&& occupied_count(old(self)@) < old(self)@.len()
                    &&& 0 <= index < old(self)@.len()
                    &&& index == old(self).next_index()
                    &&& old(self)@[index as int] is None
                    &&& final(self)@ == old(self)@.update(index as int, Some(item))
                    &&& occupied_count(final(self)@) == occupied_count(old(self)@) + 1
                },
                Err(it) => {
                    &&& it == item
                    &&& occupied_count(old(self)@) == old(self)@.len()
                    &&& *final(self) == *old(self)
                },
            },
    {
        match self.allocate() {
            Some(index) => {
                let ghost mid = *self;
                self.items.set(index, Entry::Used(item));
                proof {
                    assert(self@ =~= old(self)@.update(index as int, Some(item)));
                    lemma_occupied_count_update(old(self)@, index as int, Some(item));
                    let fl = self.free_list@;
                    let s = self.items@;
                    assert forall|k: int| 0 <= k < fl.len() implies s[fl[k]] == mid.items@[fl[k]] by {
                        assert(fl.contains(fl[k]));
                    }
                }
                Ok(index)
            },
            None => Err(item),
        }
    }

    /// Removes and returns the item at `key`, freeing its slot.
    ///
    /// `None` when `key` is out of range or addresses a free slot; the pool
    /// is then left untouched. The freed slot becomes the next one reused.
    pub fn take(&mut self, key: usize) -> (r: Option<IT>)
        requires
            old(self).wf(),
        ensures
            final(self).wf(),
            match r {
                Some(it) => {
                    &&& key < old(self)@.len()
                    &&& old(self)@[key as int] == Some(it)
                    &&& final(self)@ == old(self)@.update(key as int, None)
                    &&& occupied_count(final(self)@) + 1 == occupied_count(old(self)@)
                    &&& final(self).next_index() == key
                },
                None => {
                    &&& !(key < old(self)@.len() && old(self)@[key as int] is Some)
                    &&& *final(self) == *old(self)
                },
            },
    {
        if key >= self.items.len() {
            return None;
        }
        match &self.items[key] {
            Entry::Used(_) => {},
            _ => {
                return None;
            },
        }
        let slot = &mut self.items[key];
        let mut entry = Entry::EmptyLast;
        core::mem::swap(&mut entry, slot);
        proof {
            assert(self@ =~= old(self)@.update(key as int, None));
            lemma_occupied_count_update(old(self)@, key as int, None::<IT>);
            let fl = self.free_list@;
            let s = self.items@;
            assert forall|k: int| 0 <= k < fl.len() implies s[fl[k]] == old(self).items@[fl[k]] by {
                assert(fl.contains(fl[k]));
            }
        }
        self.free(key);
        match entry {
            Entry::Used(it) => Some(it),
            _ => {
                proof {
                    assert(false);
                }
                vstd::pervasive::unreached()
            },
        }
    }

    /// Reads the item at `key` through the given visitor and returns the
    /// visitor's result.
    ///
    /// `None` when `key` is out of range or addresses a free slot; the
    /// visitor is then not invoked at all.
    pub fn read<T, F: FnOnce(&IT) -> T>(&self, key: usize, function: F) -> (r: Option<T>)
        requires
            forall|x: &IT|
                key < self@.len() && self@[key as int] == Some(*x) ==> call_requires(
                    function,
                    (x,),
                ),
        ensures
            match r {
                Some(t) => {
                    &&& key < self@.len()
                    &&& self@[key as int] is Some
                    &&& exists|x: &IT|
                        self@[key as int] == Some(*x) && call_ensures(function, (x,), t)
                },
                None => !(key < self@.len() && self@[key as int] is Some),
            },
    {
        if key >= self.items.len() {
            None
        } else {
            match &self.items[key] {
                Entry::Used(item) => Some(function(item)),
                _ => None,
            }
        }
    }

    /// Gives the given visitor mutable access to the item at `key` and
    /// returns the visitor's result.
    ///
    /// `None` when `key` is out of range or addresses a free slot; the pool
    /// is then left untouched and the visitor is not invoked at all.
    pub fn modify<T, F: FnOnce(&mut IT) -> T>(&mut self, key: usize, function: F) -> (r: Option<
        T,
    >)
        requires
            old(self).wf(),
            forall|x: &mut IT|
                key < old(self)@.len() && old(self)@[key as int] == Some(*x) ==> call_requires(
                    function,
                    (x,),
                ),
        ensures
            final(self).wf(),
            final(self)@.len() == old(self)@.len(),
            occupied_count(final(self)@) == occupied_count(old(self)@),
            final(self).next_index() == old(self).next_index(),
            match r {
                Some(t) => {
                    &&& key < old(self)@.len()
                    &&& old(self)@[key as int] is Some
                    &&& exists|x: &mut IT|
                        {
                            &&& *x == old(self)@[key as int]->0
                            &&& final(self)@ == old(self)@.update(key as int, Some(*final(x)))
                            &&& call_ensures(function, (x,), t)
                        }
                },
                None => {
                    &&& !(key < old(self)@.len() && old(self)@[key as int] is Some)
                    &&& *final(self) == *old(self)
                },
            },
    {
        if key >= self.items.len() {
            return None;
        }
        match &self.items[key] {
            Entry::Used(_) => {},
            _ => {
                return None;
            },
        }
        match &mut self.items[key] {
            Entry::Used(item) => {
                let t = function(item);
                proof {
                    assert(self.items@[key as int] is Used);
                    lemma_occupied_count_update(
                        old(self)@,
                        key as int,
                        self@[key as int],
                    );
                    let fl = self.free_list@;
                    let s = self.items@;
                    assert(self@ =~= old(self)@.update(key as int, self@[key as int]));
                    assert forall|k: int| 0 <= k < fl.len() implies s[fl[k]]
                        == old(self).items@[fl[k]] by {
                        assert(fl.contains(fl[k]));
                    }
                }
                Some(t)
            },
            _ => {
                proof {
                    assert(false);
                }
                None
            },
        }
    }

    /// Borrows the item at `key`, if that slot is occupied.
    pub(crate) fn get(&self, key: usize) -> (r: Option<&IT>)
        ensures
            match r {
                Some(item) => key < self@.len() && self@[key as int] == Some(*item),
                None => !(key < self@.len() && self@[key as int] is Some),
            },
    {
        if key >= self.items.len() {
            None
        } else {
            match &self.items[key] {
                Entry::Used(item) => Some(item),
                _ => None,
            }
        }
    }

    /// Mutably borrows the item at `key`, if that slot is occupied.
    pub(crate) fn get_mut(&mut self, key: usize) -> (r: Option<&mut IT>)
        requires
            old(self).wf(),
        ensures
            match r {
                Some(item) => {
                    &&& key < old(self)@.len()
                    &&& old(self)@[key as int] == Some(*item)
                    &&& final(self)@ == old(self)@.update(key as int, Some(*final(item)))
                    &&& final(self).wf()
                    &&& occupied_count(final(self)@) == occupied_count(old(self)@)
                    &&& final(self).next_index() == old(self).next_index()
                },
                None => {
                    &&& !(key < old(self)@.len() && old(self)@[key as int] is Some)
                    &&& *final(self) == *old(self)
                },
            },
    {
        if key >= self.items.len() {
            return None;
        }
        match &self.items[key] {
            Entry::Used(_) => {},
            _ => {
                return None;
            },
        }
        match &mut self.items[key] {
            Entry::Used(item) => {
                proof {
                    lemma_occupied_count_update(old(self)@, key as int, Some(*final(item)));
                    let fl = after_borrow(self).free_list@;
                    let s = after_borrow(self).items@;
                    assert(after_borrow(self)@ =~= old(self)@.update(
                        key as int,
                        Some(*final(item)),
                    ));
                    assert forall|k: int| 0 <= k < fl.len() implies s[fl[k]]
                        == old(self).items@[fl[k]] by {
                        assert(fl.contains(fl[k]));
                    }
                }
                Some(item)
            },
            _ => {
                proof {
                    assert(false);
                }
                None
            },
        }
    }
}

/// The round trip law: storing an item into a free slot and then taking it
/// out again returns exactly that item and restores the pool's model.
///
/// `store` updates the model at a free position `i` to `Some(x)` and
/// `take(i)` then finds `Some(x)` there — it hands back exactly `x` — and
/// leaves the model `s.update(i, None)`, which is `s` itself: the slot is
/// free again, the occupied count is back where it started, and a `read`
/// at the raw index `i` now finds the slot absent, never the stale item.
pub proof fn lemma_store_take_round_trip<IT>(s: Seq<Option<IT>>, i: int, x: IT)
    requires
        0 <= i < s.len(),
        s[i] is None,
    ensures
        s.update(i, Some(x))[i] == Some(x),
        occupied_count(s.update(i, Some(x))) == occupied_count(s) + 1,
        s.update(i, Some(x)).update(i, None) == s,
        s.update(i, Some(x)).update(i, None)[i] is None,
        occupied_count(s.update(i, Some(x)).update(i, None)) == occupied_count(s),
{
    lemma_occupied_count_update(s, i, Some(x));
    lemma_occupied_count_update(s.update(i, Some(x)), i, None);
    assert(s.update(i, Some(x)).update(i, None) =~= s);
}

/// The entry slot `i` holds right after construction: the free chain runs
/// from the last slot down to slot `0`, which ends it.
pub open spec fn initial_entry<IT>(i: int) -> Entry<IT> {
    if i == 0 {
        Entry::EmptyLast
    } else {
        Entry::EmptyNext((i - 1) as usize)
    }
}

} // verus!
