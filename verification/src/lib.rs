//! A safe-memory-reclamation cell library.
//!
//! A [`TrackedAtomic`] is a replaceable owning slot: writers install new
//! values while every reader keeps a stable handle ([`Guard`]) to the value
//! that was current when the reader looked.  A per-cell *mutation domain*
//! tracks, for each historical value, how many readers still hold it; a value
//! is reclaimed exactly when its last reader lets go, and the cell's own
//! bookkeeping is reclaimed when the last [`Keep`] handle and the last
//! [`Guard`] are both gone.
//!
//! All cells of one element type live in a [`Domain`], which plays the part
//! of the heap: slots and mutation nodes are indices into it, so the
//! reclamation argument — no value freed while readable, nothing left over
//! once every handle is dropped — is stated and proved over the domain's
//! explicit state.
//!
//! On top of the cells sits [`PlugMap`], a chained hash map whose bins and
//! per-entry value slots are individual cells: map readers get guards that
//! outlive any later insert or remove.
//!
//! One caution: a value that itself stores handles into its own domain
//! forms a cycle the reclamation scheme cannot collect.  Break such cycles
//! by hand — release or overwrite the inner handle before giving up the
//! last outer one.

mod domain;
mod guard;
mod heap_ptr;
mod keep;
mod entry;
mod map;
mod table;
mod key_hash;
mod laws;
mod tracked_atomic;

pub use domain::Domain;
pub use guard::Guard;
pub use heap_ptr::HeapPtr;
pub use keep::{Keep, KeepMarker};
pub use entry::{Entry, EntryNode};
pub use key_hash::{KeyHasher, PlainHasher};
pub use laws::{
    lemma_clone_independent, lemma_keep_count_consistency, lemma_no_leak, lemma_no_premature_free,
    lemma_readership_safety, lemma_round_trip, lemma_swap_with_reversible,
};
pub use map::PlugMap;
pub use table::Table;
pub use tracked_atomic::{GuardNode, TrackedAtomic};
