//! A fixed-capacity, unordered storage pool with O(1) operations.
//!
//! A pool of same-typed slots hands out handles when items are stored; the
//! handles are later used to read, modify or remove the items. Freed slots
//! are recycled through an intrusive free chain in constant time.
//!
//! Three access disciplines are offered:
//! - [`slots::Slots`]: a move-only [`slots::Key`] guards every stored item,
//!   so a live key always denotes a present item;
//! - [`unrestricted::UnrestrictedSlots`]: plain `usize` indices, every access
//!   fallible and bounds-checked;
//! - [`slotmap::SlotMap`]: indices packed with a generation counter into one
//!   machine word, so stale handles of recycled slots are rejected.

pub mod iterator;
pub mod private;
pub mod slotmap;
pub mod slots;
pub mod unrestricted;

pub use crate::slotmap::SlotMap;
