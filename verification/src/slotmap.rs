//! Storage pool whose handles carry a generation tag.
//!
//! A plain numeric index silently addresses whatever currently sits in its
//! slot, even after the slot was freed and reused. This pool packs a
//! monotonic generation counter together with the slot index into a single
//! `usize` handle: every `store` draws a fresh generation, and the handle
//! itself is written into the slot as a check value. An access succeeds
//! only when the presented handle equals the stored check value exactly, so
//! a handle that outlived its item is rejected like an out-of-range index.
//!
//! The generation counter belongs to the whole map, not to single slots,
//! and it wraps on overflow. The protection is therefore probabilistic: a
//! stale handle can pass the check again only after the generation counter
//! has walked its whole range for the same slot. That trade-off is
//! deliberate; it bounds the risk of accidental reuse without growing the
//! handle beyond one machine word.
//!
//! A handle is built as `index + (generation * span) mod (usize::MAX + 1)`,
//! where `span` is the smallest power of two with room for every index;
//! this equals packing the truncated generation above the index bits.

use vstd::prelude::*;

use vstd::arithmetic::div_mod::lemma_div_multiples_vanish;
use vstd::arithmetic::div_mod::lemma_mod_multiples_vanish;
use vstd::arithmetic::div_mod::lemma_mod_pos_bound;
use vstd::arithmetic::div_mod::lemma_small_mod;
use vstd::arithmetic::div_mod::lemma_truncate_middle;
use vstd::arithmetic::mul::lemma_mul_inequality;
use vstd::arithmetic::power2::lemma_pow2_adds;
use vstd::arithmetic::power2::lemma_pow2_pos;
use vstd::arithmetic::power2::lemma_pow2_strictly_increases;
use vstd::arithmetic::power2::lemma_pow2_unfold;
use vstd::arithmetic::power2::pow2;
use vstd::layout::unsigned_int_max_values;

use crate::unrestricted::occupied_count;
use crate::unrestricted::UnrestrictedSlots;

verus! {

/// The generation counter after one more store: it increments and wraps.
pub open spec fn next_generation(g: usize) -> usize {
    if g == usize::MAX {
        0
    } else {
        (g + 1) as usize
    }
}

/// The handle for slot `index` drawn at generation `g`, over a span that
/// covers every index: the truncated generation sits above the index bits.
pub open spec fn handle_of(span: usize, g: usize, index: int) -> int {
    index + (g as int * span as int) % (usize::MAX as int + 1)
}

/// The reuse protection law: two handles built for the same slot differ as
/// long as the generations that drew them differ modulo the generation
/// range `(usize::MAX + 1) / span`. A stale handle can therefore collide
/// with a fresh handle of its slot only once the generation counter has
/// wrapped through that whole range of stores — the deliberate,
/// probabilistic bound of this scheme, not an absolute guarantee.
pub proof fn lemma_handle_generation_distinct(
    span: usize,
    exp: nat,
    g1: usize,
    g2: usize,
    i: int,
)
    requires
        span == pow2(exp),
        exp < usize::BITS,
        g1 as int % ((usize::MAX as int + 1) / span as int) != g2 as int % ((usize::MAX as int
            + 1) / span as int),
    ensures
        handle_of(span, g1, i) != handle_of(span, g2, i),
{
    let range = usize::MAX as int + 1;
    let gq = pow2((usize::BITS - exp) as nat) as int;
    unsigned_int_max_values();
    lemma_pow2_adds(exp, (usize::BITS - exp) as nat);
    lemma_pow2_pos(exp);
    lemma_pow2_pos((usize::BITS - exp) as nat);
    assert(span as int * gq == range);
    lemma_div_multiples_vanish(gq, span as int);
    assert(range / span as int == gq);
    lemma_truncate_middle(g1 as int, span as int, gq);
    lemma_truncate_middle(g2 as int, span as int, gq);
    assert(g1 as int * span as int == span as int * g1 as int) by (nonlinear_arith);
    assert(g2 as int * span as int == span as int * g2 as int) by (nonlinear_arith);
    assert((g1 as int * span as int) % range == span as int * (g1 as int % gq));
    assert((g2 as int * span as int) % range == span as int * (g2 as int % gq));
    assert(span as int * (g1 as int % gq) != span as int * (g2 as int % gq)) by (nonlinear_arith)
        requires
            span >= 1,
            g1 as int % gq != g2 as int % gq,
    ;
}

/// Storage pool whose handles carry a generation tag.
///
/// `IT` is the type of the stored items; the number of slots is fixed at
/// construction. The mathematical view is a map from the currently valid
/// handles to the stored items.
pub struct SlotMap<IT> {
    raw: UnrestrictedSlots<(usize, IT)>,
    generation: usize,
    slot_span: usize,
    span_exp: Ghost<nat>,
}

impl<IT> View for SlotMap<IT> {
    type V = Map<usize, IT>;

    /// The map from every currently valid handle to the item it denotes.
    closed spec fn view(&self) -> Map<usize, IT> {
        Map::new(
            |h: usize| self.handle_live(h),
            |h: usize| (self.raw@[h as int % self.slot_span as int]->0).1,
        )
    }
}

impl<IT> SlotMap<IT> {
    /// A handle is valid iff the slot its low bits address is occupied and
    /// stores the handle itself as its check value.
    spec fn handle_live(&self, h: usize) -> bool {
        let i = h as int % self.slot_span as int;
        &&& 0 <= i < self.raw@.len()
        &&& self.raw@[i] is Some
        &&& (self.raw@[i]->0).0 == h
    }

    /// The number of slots.
    pub closed spec fn slots(&self) -> nat {
        self.raw@.len()
    }

    /// The number of occupied slots.
    pub closed spec fn stored_count(&self) -> nat {
        occupied_count(self.raw@)
    }

    /// The current value of the map-wide generation counter.
    pub closed spec fn generation(&self) -> usize {
        self.generation
    }

    /// The handle span: the smallest power of two above every slot index.
    /// The generation tag of a handle is a multiple of this span.
    pub closed spec fn span(&self) -> usize {
        self.slot_span
    }

    /// The slot the next successful `store` will fill (meaningful only
    /// while the map is not full): the most recently freed slot first.
    pub closed spec fn next_slot(&self) -> int {
        self.raw.next_index()
    }

    /// Well-formedness: the underlying pool is well-formed, the span covers
    /// every index and divides the handle range, and every occupied slot's
    /// check value points back at that very slot.
    pub closed spec fn wf(&self) -> bool {
        &&& self.raw.wf()
        &&& self.span_wf()
        &&& forall|i: int|
            0 <= i < self.raw@.len() && self.raw@[i] is Some ==> (#[trigger] self.raw@[i]->0).0
                as int % self.slot_span as int == i
    }

    /// The span facts alone: these survive while a store is mid-flight.
    spec fn span_wf(&self) -> bool {
        &&& self.slot_span == pow2(self.span_exp@)
        &&& self.span_exp@ < usize::BITS
        &&& self.raw@.len() <= self.slot_span
    }

    /// Creates a map of `capacity` slots, all free, at generation zero.
    ///
    /// The capacity can be at most half the handle range, so that at least
    /// one bit of every handle is left for the generation tag.
    pub fn new(capacity: usize) -> (r: Self)
        requires
            capacity as int * 2 <= usize::MAX as int + 1,
        ensures
            r.wf(),
            r.slots() == capacity,
            r@ == Map::<usize, IT>::empty(),
            r.generation() == 0,
            r.stored_count() == 0,
            capacity > 0 ==> r.next_slot() == capacity - 1,
    {
        let raw = UnrestrictedSlots::new(capacity);
        let mut span: usize = 1;
        let ghost mut exp: nat = 0;
        proof {
            vstd::arithmetic::power2::lemma2_to64();
            unsigned_int_max_values();
        }
        while span < capacity
            invariant
                span == pow2(exp),
                1 <= span <= usize::MAX as int,
                capacity as int * 2 <= usize::MAX as int + 1,
            decreases 2 * capacity - span,
        {
            proof {
                lemma_pow2_unfold((exp + 1) as nat);
            }
            span = span * 2;
            proof {
                exp = exp + 1;
            }
        }
        proof {
            if exp >= usize::BITS {
                unsigned_int_max_values();
                if exp > usize::BITS {
                    lemma_pow2_strictly_increases(usize::BITS as nat, exp);
                }
                assert(false);
            }
        }
        let r = SlotMap { raw, generation: 0, slot_span: span, span_exp: Ghost(exp) };
        proof {
            crate::unrestricted::lemma_occupied_count_all_free(r.raw@);
            assert(r@ =~= Map::<usize, IT>::empty());
        }
        r
    }

    /// Draws the next generation for a store; the counter wraps and never
    /// faults.
    fn pull_generation(&mut self) -> (r: usize)
        ensures
            final(self).generation == next_generation(old(self).generation),
            r == final(self).generation,
            final(self).raw == old(self).raw,
            final(self).slot_span == old(self).slot_span,
            final(self).span_exp == old(self).span_exp,
    {
        self.generation = self.generation.wrapping_add(1);
        self.generation
    }

    /// Packs the freshly drawn generation above the index bits of `index`.
    fn build_handle(&mut self, index: usize) -> (r: usize)
        requires
            old(self).span_wf(),
            index < old(self).slot_span,
        ensures
            final(self).generation == next_generation(old(self).generation),
            final(self).raw == old(self).raw,
            final(self).slot_span == old(self).slot_span,
            final(self).span_exp == old(self).span_exp,
            r as int == handle_of(old(self).slot_span, final(self).generation, index as int),
            r as int % old(self).slot_span as int == index,
    {
        let g = self.pull_generation();
        let span = self.slot_span;
        let ghost exp = self.span_exp@;
        let ghost range = usize::MAX as int + 1;
        let ghost gq = pow2((usize::BITS - exp) as nat) as int;
        proof {
            unsigned_int_max_values();
            lemma_pow2_adds(exp, (usize::BITS - exp) as nat);
            assert(span as int * gq == range);
            lemma_pow2_pos((usize::BITS - exp) as nat);
            lemma_truncate_middle(g as int, span as int, gq);
            assert((span as int * g as int) % range == span as int * (g as int % gq));
            lemma_mod_pos_bound(g as int, gq);
            lemma_mul_inequality(g as int % gq, gq - 1, span as int);
            assert(span as int * (gq - 1) == range - span) by (nonlinear_arith)
                requires
                    span as int * gq == range,
            ;
        }
        let genpart = g.wrapping_mul(span);
        proof {
            assert(genpart == (g as int * span as int) % range) by (nonlinear_arith)
                requires
                    genpart == (g as nat * span as nat) % (usize::MAX as nat + 1),
                    range == usize::MAX as int + 1,
            ;
            assert(genpart <= range - span);
            assert(genpart == span as int * (g as int % gq)) by {
                assert(g as int * span as int == span as int * g as int) by (nonlinear_arith);
            }
        }
        let handle = index + genpart;
        proof {
            lemma_mod_multiples_vanish(g as int % gq, index as int, span as int);
            lemma_small_mod(index as nat, span as nat);
        }
        handle
    }

    /// The slot index a handle addresses: its value modulo the span.
    fn extract_index(&self, handle: usize) -> (r: usize)
        requires
            self.span_wf(),
        ensures
            r as int == handle as int % self.slot_span as int,
            r < self.slot_span,
    {
        proof {
            lemma_pow2_pos(self.span_exp@);
        }
        handle % self.slot_span
    }

    /// Stores an item into a free slot and returns the handle to access it.
    ///
    /// This fails exactly when the map is full, and failure hands the item
    /// back unchanged (the generation counter is then not advanced). The
    /// returned handle is fresh: it was valid for no earlier item.
    pub fn store(&mut self, item: IT) -> (r: Result<usize, IT>)
        requires
            old(self).wf(),
        ensures
            final(self).wf(),
            final(self).slots() == old(self).slots(),
            final(self).span() == old(self).span(),
            match r {
                Ok(handle) => {
                    &&& old(self).stored_count() < old(self).slots()
                    &&& final(self).stored_count() == old(self).stored_count() + 1
                    &&& final(self).generation() == next_generation(old(self).generation())
                    &&& handle as int == handle_of(
                        old(self).span(),
                        final(self).generation(),
                        old(self).next_slot(),
                    )
                    &&& handle as int % old(self).span() as int == old(self).next_slot()
                    &&& !old(self)@.dom().contains(handle)
                    &&& final(self)@ == old(self)@.insert(handle, item)
                },
                Err(it) => {
                    &&& it == item
                    &&& old(self).stored_count() == old(self).slots()
                    &&& *final(self) == *old(self)
                },
            },
    {
        match self.raw.store((0, item)) {
            Err((_, it)) => Err(it),
            Ok(index) => {
                let handle = self.build_handle(index);
                match self.raw.get_mut(index) {
                    Some(pair) => {
                        pair.0 = handle;
                    },
                    None => {
                        proof {
                            assert(false);
                        }
                    },
                }
                proof {
                    let m0 = old(self)@;
                    let m1 = self@;
                    assert forall|h: usize| m0.dom().contains(h) implies m1.dom().contains(h)
                        && m1[h] == m0[h] by {
                        assert(h as int % self.slot_span as int != index as int);
                    }
                    assert(m1 =~= m0.insert(handle, item));
                }
                Ok(handle)
            },
        }
    }

    /// Removes and returns the item a handle denotes, freeing its slot.
    ///
    /// `None` when the handle is not (or no longer) valid; the map is then
    /// left untouched. The freed slot becomes the next one reused.
    pub fn take(&mut self, handle: usize) -> (r: Option<IT>)
        requires
            old(self).wf(),
        ensures
            final(self).wf(),
            final(self).slots() == old(self).slots(),
            final(self).span() == old(self).span(),
            final(self).generation() == old(self).generation(),
            match r {
                Some(it) => {
                    &&& old(self)@.dom().contains(handle)
                    &&& old(self)@[handle] == it
                    &&& final(self)@ == old(self)@.remove(handle)
                    &&& final(self).stored_count() + 1 == old(self).stored_count()
                    &&& final(self).next_slot() == handle as int % old(self).span() as int
                },
                None => {
                    &&& !old(self)@.dom().contains(handle)
                    &&& *final(self) == *old(self)
                },
            },
    {
        let index = self.extract_index(handle);
        let live = match self.raw.get(index) {
            Some(pair) => pair.0 == handle,
            None => false,
        };
        if !live {
            return None;
        }
        match self.raw.take(index) {
            Some(pair) => {
                proof {
                    assert(self@ =~= old(self)@.remove(handle));
                }
                Some(pair.1)
            },
            None => {
                proof {
                    assert(false);
                }
                None
            },
        }
    }

    /// Reads the item a handle denotes through the given visitor and
    /// returns the visitor's result.
    ///
    /// `None` when the handle is not (or no longer) valid; the visitor is
    /// then not invoked at all.
    pub fn read<T, F: FnOnce(&IT) -> T>(&self, handle: usize, function: F) -> (r: Option<T>)
        requires
            self.wf(),
            forall|x: &IT|
                self@.dom().contains(handle) && self@[handle] == *x ==> call_requires(
                    function,
                    (x,),
                ),
        ensures
            r is Some <==> self@.dom().contains(handle),
            r is Some ==> exists|x: &IT|
                self@[handle] == *x && #[trigger] call_ensures(function, (x,), r->0),
    {
        let index = self.extract_index(handle);
        match self.raw.get(index) {
            Some(pair) => {
                if pair.0 == handle {
                    proof {
                        assert(self.handle_live(handle));
                        assert(self@.dom().contains(handle));
                        assert(self@[handle] == pair.1);
                    }
                    let t = function(&pair.1);
                    let out = Some(t);
                    proof {
                        assert(out->0 == t);
                    }
                    out
                } else {
                    None
                }
            },
            None => None,
        }
    }

    /// Gives the given visitor mutable access to the item a handle denotes
    /// and returns the visitor's result.
    ///
    /// `None` when the handle is not (or no longer) valid; the map is then
    /// left untouched and the visitor is not invoked at all.
    pub fn modify<T, F: FnOnce(&mut IT) -> T>(&mut self, handle: usize, function: F) -> (r:
        Option<T>)
        requires
            old(self).wf(),
            forall|x: &mut IT|
                old(self)@.dom().contains(handle) && old(self)@[handle] == *x ==> call_requires(
                    function,
                    (x,),
                ),
        ensures
            final(self).wf(),
            final(self).slots() == old(self).slots(),
            final(self).span() == old(self).span(),
            final(self).generation() == old(self).generation(),
            final(self).stored_count() == old(self).stored_count(),
            final(self).next_slot() == old(self).next_slot(),
            match r {
                Some(t) => {
                    &&& old(self)@.dom().contains(handle)
                    &&& exists|x: &mut IT|
                        {
                            &&& *x == old(self)@[handle]
                            &&& final(self)@ == old(self)@.insert(handle, *final(x))
                            &&& call_ensures(function, (x,), t)
                        }
                },
                None => {
                    &&& !old(self)@.dom().contains(handle)
                    &&& *final(self) == *old(self)
                },
            },
    {
        let index = self.extract_index(handle);
        let live = match self.raw.get(index) {
            Some(pair) => pair.0 == handle,
            None => false,
        };
        if !live {
            return None;
        }
        match self.raw.get_mut(index) {
            Some(pair) => {
                let t = function(&mut pair.1);
                proof {
                    let m0 = old(self)@;
                    let m1 = self@;
                    assert forall|h: usize| h != handle implies (m0.dom().contains(h)
                        <==> m1.dom().contains(h)) && (m0.dom().contains(h) ==> m1[h]
                        == m0[h]) by {
                        if h as int % self.slot_span as int == index as int {
                            assert((self.raw@[index as int]->0).0 == handle);
                        }
                    }
                    assert(m1 =~= m0.insert(handle, (self.raw@[index as int]->0).1));
                }
                Some(t)
            },
            None => {
                proof {
                    assert(false);
                }
                None
            },
        }
    }
}

} // verus!
