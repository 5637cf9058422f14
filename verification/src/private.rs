//! The tagged slot representation shared by all pool variants.
//!
//! Conceptually these are implementation details, but the iterator types
//! expose entry slices, so the entry type itself must be public.

use vstd::prelude::*;

verus! {

/// One slot of a pool: either it holds an item, or it is a link of the
/// intrusive free chain threaded through the unused slots.
///
/// A free slot stores the index of the next free slot (`EmptyNext`), except
/// for the last link of the chain (`EmptyLast`).
pub enum Entry<IT> {
    Used(IT),
    EmptyNext(usize),
    EmptyLast,
}

/// The occupancy view of a sequence of entries: one `Option` per slot,
/// `Some(item)` exactly for the occupied ones.
pub open spec fn options_of<IT>(s: Seq<Entry<IT>>) -> Seq<Option<IT>> {
    Seq::new(
        s.len(),
        |i: int|
            if s[i] is Used {
                Some(s[i]->Used_0)
            } else {
                None
            },
    )
}

impl<IT> Default for Entry<IT> {
    /// A fresh slot is free and ends the chain.
    fn default() -> (r: Self)
        ensures
            r is EmptyLast,
    {
        Entry::EmptyLast
    }
}

} // verus!
