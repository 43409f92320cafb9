use crate::domain::Domain;
use crate::entry::keys_concrete;
use crate::guard::Guard;
use crate::key_hash::{KeyHasher, PlainHasher};
use crate::table::Table;
use vstd::prelude::*;

verus! {

/// A chained hash map whose bins and per-entry value slots are individual
/// cells: reads hand out guards that stay valid — and keep showing the
/// value that was current at read time — across any later inserts and
/// removes.
pub struct PlugMap<K, V, S = PlainHasher> {
    /// The bin table.
    pub table: Table<K, V>,
    /// The hash supplier.
    pub hasher: S,
}

impl<K: Copy + PartialEq, V, S: KeyHasher<K>> PlugMap<K, V, S> {
    /// The number of bins a fresh map starts with, as a base-two logarithm.
    pub const DEFAULT_SIZE: usize = 4;

    /// The hash function this map files keys under.
    pub open spec fn hfn(self) -> spec_fn(K) -> u64 {
        |k: K| self.hasher.hash_spec(k)
    }

    /// Well-formedness: a well-formed table whose stored hashes all come
    /// from this map's hasher, over keys with honest equality.
    pub open spec fn wf(self) -> bool {
        &&& self.table.wf()
        &&& self.table.consistent(self.hfn())
        &&& keys_concrete::<K>()
    }

    /// The map's bindings: each live key to its current value.
    pub open spec fn as_map(self) -> Map<K, V> {
        self.table.as_map()
    }

    /// An empty map with `2^size` bins and the given hasher.
    pub fn new_with_hasher(size: usize, hasher: S) -> (r: Self)
        requires
            keys_concrete::<K>(),
        ensures
            r.wf(),
            r.as_map() == Map::<K, V>::empty(),
            r.hasher == hasher,
    {
        PlugMap { table: Table::new(size), hasher }
    }

    /// Looks `key` up: a readership on its current value, or `None`.
    pub fn get(&mut self, key: &K) -> (r: Option<Guard>)
        requires
            old(self).wf(),
        ensures
            final(self).wf(),
            final(self).hasher == old(self).hasher,
            final(self).as_map() == old(self).as_map(),
            Domain::guards_kept(old(self).table.vals, final(self).table.vals),
            r is Some <==> old(self).as_map().contains_key(*key),
            r matches Some(g) ==> g.valid(final(self).table.vals) && g.value_spec(
                final(self).table.vals,
            ) == old(self).as_map()[*key],
    {
        let ghost hf = self.hfn();
        let h = self.hasher.hash(key);
        self.table.get(key, h, Ghost(hf))
    }

    /// Binds `key` to `val`; hands back a readership on the displaced value
    /// if the key was already bound.
    pub fn insert(&mut self, key: K, val: V) -> (r: Option<Guard>)
        requires
            old(self).wf(),
        ensures
            final(self).wf(),
            final(self).hasher == old(self).hasher,
            final(self).as_map() == old(self).as_map().insert(key, val),
            Domain::guards_kept(old(self).table.vals, final(self).table.vals),
            r is Some <==> old(self).as_map().contains_key(key),
            r matches Some(g) ==> g.valid(final(self).table.vals) && g.value_spec(
                final(self).table.vals,
            ) == old(self).as_map()[key],
    {
        let ghost hf = self.hfn();
        let h = self.hasher.hash(&key);
        self.table.insert(key, val, h, Ghost(hf))
    }

    /// Unbinds `key`; hands back a readership on the removed value.
    pub fn remove(&mut self, key: &K) -> (r: Option<Guard>)
        requires
            old(self).wf(),
        ensures
            final(self).wf(),
            final(self).hasher == old(self).hasher,
            final(self).as_map() == old(self).as_map().remove(*key),
            Domain::guards_kept(old(self).table.vals, final(self).table.vals),
            r is Some <==> old(self).as_map().contains_key(*key),
            r matches Some(g) ==> g.valid(final(self).table.vals) && g.value_spec(
                final(self).table.vals,
            ) == old(self).as_map()[*key],
    {
        let ghost hf = self.hfn();
        let h = self.hasher.hash(key);
        self.table.remove(key, h, Ghost(hf))
    }

    /// Dereferences a guard this map handed out.
    pub fn value<'a>(&'a self, g: &Guard) -> (r: &'a V)
        requires
            self.wf(),
            g.valid(self.table.vals),
        ensures
            *r == g.value_spec(self.table.vals),
    {
        g.value(&self.table.vals)
    }
}

impl<K: Copy + PartialEq, V> PlugMap<K, V, PlainHasher> where PlainHasher: KeyHasher<K> {
    /// An empty map with the stock hasher and the default number of bins.
    pub fn new() -> (r: Self)
        requires
            keys_concrete::<K>(),
        ensures
            r.wf(),
            r.as_map() == Map::<K, V>::empty(),
    {
        Self::new_with_hasher(4, PlainHasher)
    }
}

} // verus!
