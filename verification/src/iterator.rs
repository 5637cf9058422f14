//! Iteration over the occupied slots of a pool.
//!
//! Iteration proceeds in slot order, which is unrelated to the order in
//! which the items were stored. [`Iter`] walks a borrowed snapshot of the
//! slots; [`IterMut`] is a cursor that is handed the pool at every step,
//! because a mutable borrow held across steps cannot be tracked in
//! contracts.

use vstd::prelude::*;

use crate::private::options_of;
use crate::private::Entry;
use crate::unrestricted::occupied_count;
use crate::unrestricted::UnrestrictedSlots;

verus! {

/// Read-only iterator over the occupied slots of a pool.
pub struct Iter<'a, IT> {
    entries: &'a [Entry<IT>],
    pos: usize,
}

impl<'a, IT> Iter<'a, IT> {
    /// The occupancy view of the slots being iterated.
    pub closed spec fn entries(&self) -> Seq<Option<IT>> {
        options_of(self.entries@)
    }

    /// Slots before this position have been visited already.
    pub closed spec fn pos(&self) -> int {
        self.pos as int
    }

    pub(crate) fn from_entry_slice(inner: &'a [Entry<IT>]) -> (r: Self)
        ensures
            r.entries() == options_of(inner@),
            r.pos() == 0,
    {
        Iter { entries: inner, pos: 0 }
    }

    /// Advances past any free slots and returns a reference to the item of
    /// the next occupied slot; `None` once no occupied slot remains.
    pub fn next(&mut self) -> (r: Option<&'a IT>)
        ensures
            final(self).entries() == old(self).entries(),
            match r {
                None => {
                    &&& final(self).pos() >= old(self).entries().len()
                    &&& forall|j: int|
                        old(self).pos() <= j < old(self).entries().len() ==> old(self).entries()[j]
                            is None
                },
                Some(item) => {
                    &&& old(self).pos() <= final(self).pos() - 1 < old(self).entries().len()
                    &&& old(self).entries()[final(self).pos() - 1] == Some(*item)
                    &&& forall|j: int|
                        old(self).pos() <= j < final(self).pos() - 1 ==> old(self).entries()[j]
                            is None
                },
            },
    {
        loop
            invariant
                self.entries == old(self).entries,
                old(self).pos() <= self.pos as int,
                forall|j: int|
                    old(self).pos() <= j < self.pos as int ==> old(self).entries()[j] is None,
            decreases self.entries@.len() - self.pos,
        {
            if self.pos >= self.entries.len() {
                return None;
            }
            let i = self.pos;
            self.pos = i + 1;
            match &self.entries[i] {
                Entry::Used(item) => {
                    return Some(item);
                },
                _ => {},
            }
        }
    }
}

/// Read-write cursor over the occupied slots of a pool.
///
/// The cursor only remembers its position; the pool is handed to every
/// [`IterMut::next`] call, which returns a mutable reference to the item of
/// the next occupied slot.
pub struct IterMut {
    pos: usize,
}

impl IterMut {
    /// Slots before this position have been visited already.
    pub closed spec fn pos(&self) -> int {
        self.pos as int
    }

    pub(crate) fn from_start() -> (r: Self)
        ensures
            r.pos() == 0,
    {
        IterMut { pos: 0 }
    }

    /// Advances past any free slots of `map` and returns a mutable
    /// reference to the item of the next occupied slot; `None` once no
    /// occupied slot remains.
    pub fn next<'m, IT>(&mut self, map: &'m mut UnrestrictedSlots<IT>) -> (r: Option<&'m mut IT>)
        requires
            old(map).wf(),
        ensures
            match r {
                None => {
                    &&& *final(map) == *old(map)
                    &&& final(self).pos() >= old(map)@.len()
                    &&& forall|j: int|
                        old(self).pos() <= j < old(map)@.len() ==> old(map)@[j] is None
                },
                Some(item) => {
                    &&& old(self).pos() <= final(self).pos() - 1 < old(map)@.len()
                    &&& old(map)@[final(self).pos() - 1] == Some(*item)
                    &&& forall|j: int|
                        old(self).pos() <= j < final(self).pos() - 1 ==> old(map)@[j] is None
                    &&& final(map)@ == old(map)@.update(final(self).pos() - 1, Some(*final(item)))
                    &&& final(map).wf()
                    &&& occupied_count(final(map)@) == occupied_count(old(map)@)
                },
            },
    {
        let cap = map.capacity();
        loop
            invariant
                *map == *old(map),
                map.wf(),
                cap == map@.len(),
                old(self).pos() <= self.pos as int,
                forall|j: int| old(self).pos() <= j < self.pos as int ==> map@[j] is None,
            ensures
                *map == *old(map),
                old(self).pos() <= self.pos as int,
                forall|j: int| old(self).pos() <= j < self.pos as int ==> map@[j] is None,
                self.pos as int >= cap || map@[self.pos as int] is Some,
            decreases cap - self.pos,
        {
            if self.pos >= cap {
                break;
            }
            match map.get(self.pos) {
                Some(_) => {
                    break;
                },
                None => {
                    self.pos = self.pos + 1;
                },
            }
        }
        if self.pos >= cap {
            return None;
        }
        let i = self.pos;
        self.pos = i + 1;
        map.get_mut(i)
    }
}

} // verus!
