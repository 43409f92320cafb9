use crate::domain::Domain;
use crate::guard::Guard;
use vstd::prelude::*;

verus! {

/// One entry of a bin's chain: the key, its hash, and the cell — in the
/// map's value domain — that holds the entry's current value.
#[derive(Clone, Copy, Debug)]
pub struct EntryNode<K> {
    pub key: K,
    pub hash: u64,
    pub val_cell: usize,
}

/// The state of one bin: empty, or headed by a chain of entries.
#[derive(Debug)]
pub enum Entry<K> {
    Empty,
    Head(Vec<EntryNode<K>>),
}

/// Key equality on `K` is honest structural equality.
pub open spec fn keys_concrete<K: PartialEq>() -> bool {
    vstd::laws_eq::obeys_concrete_eq::<K>()
}

impl<K: Copy + PartialEq> EntryNode<K> {
    /// A chain entry for `key`, hashed to `hash`, whose value lives in cell
    /// `val_cell` of the map's value domain.
    pub fn new(key: K, hash: u64, val_cell: usize) -> (r: Self)
        ensures
            r.key == key,
            r.hash == hash,
            r.val_cell == val_cell,
    {
        EntryNode { key, hash, val_cell }
    }

    /// The hash this entry was filed under.
    pub fn hash(&self) -> (h: u64)
        ensures
            h == self.hash,
    {
        self.hash
    }

    /// The value cell, if this entry is for `key`.
    pub fn search(&self, key: &K) -> (r: Option<usize>)
        requires
            keys_concrete::<K>(),
        ensures
            r is Some <==> self.key == *key,
            r matches Some(vc) ==> vc == self.val_cell,
    {
        proof {
            reveal(vstd::laws_eq::obeys_concrete_eq);
        }
        if self.key == *key {
            Some(self.val_cell)
        } else {
            None
        }
    }

    /// A readership on this entry's current value.
    pub fn value<V>(&self, vals: &mut Domain<V>) -> (g: Guard)
        requires
            old(vals).wf(),
            old(vals).alive(self.val_cell as int),
        ensures
            final(vals).wf(),
            g.valid(*final(vals)),
            g.cell == self.val_cell,
            g.value_spec(*final(vals)) == old(vals).cur(self.val_cell as int),
            Domain::guards_kept(*old(vals), *final(vals)),
            Domain::keeps_kept(*old(vals), *final(vals)),
            Domain::dead_monotone(*old(vals), *final(vals)),
            Domain::alive_kept(*old(vals), *final(vals)),
            Domain::frame_except(*old(vals), *final(vals), self.val_cell as int),
            final(vals).cur(self.val_cell as int) == old(vals).cur(self.val_cell as int),
    {
        vals.read_cell(self.val_cell)
    }
}

impl<K: Copy + PartialEq> Entry<K> {
    /// The chain this bin holds.
    pub open spec fn chain(self) -> Seq<EntryNode<K>> {
        match self {
            Entry::Empty => Seq::empty(),
            Entry::Head(recs) => recs@,
        }
    }

    /// The value cell of the entry for `key`, if the chain has one.
    pub fn search(&self, key: &K) -> (r: Option<usize>)
        requires
            keys_concrete::<K>(),
        ensures
            r is Some <==> (exists|j: int|
                0 <= j < self.chain().len() && (#[trigger] self.chain()[j]).key == *key),
            r matches Some(vc) ==> (exists|j: int|
                0 <= j < self.chain().len() && (#[trigger] self.chain()[j]).key == *key && self
                    .chain()[j].val_cell == vc),
    {
        match self {
            Entry::Empty => {
                proof {
                    assert(self.chain().len() == 0);
                }
                None
            },
            Entry::Head(recs) => {
                proof {
                    assert(self.chain() == recs@);
                }
                match find_key(recs, key) {
                    Some(j) => {
                        proof {
                            assert((self.chain()[j as int]).key == *key);
                        }
                        Some(recs[j].val_cell)
                    },
                    None => {
                        proof {
                            assert forall|j: int|
                                0 <= j < self.chain().len() implies (#[trigger] self.chain()[j]).key
                                != *key by {
                                assert(recs@[j].key != *key);
                            }
                        }
                        None
                    },
                }
            },
        }
    }
}

/// Copies a chain out of a bin guard, entry by entry.
pub(crate) fn copy_chain<K: Copy + PartialEq>(recs: &Vec<EntryNode<K>>) -> (r: Vec<EntryNode<K>>)
    ensures
        r@ == recs@,
{
    let mut out: Vec<EntryNode<K>> = Vec::new();
    let mut i: usize = 0;
    while i < recs.len()
        invariant
            i <= recs@.len(),
            out@ == recs@.subrange(0, i as int),
        decreases recs@.len() - i,
    {
        out.push(recs[i]);
        proof {
            assert(out@ =~= recs@.subrange(0, i + 1));
        }
        i = i + 1;
    }
    proof {
        assert(out@ =~= recs@);
    }
    out
}

/// Scans a chain for `key`; returns the position of the (sole) entry that
/// carries it.
pub(crate) fn find_key<K: Copy + PartialEq>(recs: &Vec<EntryNode<K>>, key: &K) -> (r: Option<
    usize,
>)
    requires
        keys_concrete::<K>(),
    ensures
        r matches Some(j) ==> 0 <= j < recs@.len() && recs@[j as int].key == *key,
        r is None ==> forall|j: int| 0 <= j < recs@.len() ==> recs@[j].key != *key,
{
    proof {
        reveal(vstd::laws_eq::obeys_concrete_eq);
    }
    let mut i: usize = 0;
    while i < recs.len()
        invariant
            i <= recs@.len(),
            forall|j: int| 0 <= j < i ==> recs@[j].key != *key,
            vstd::laws_eq::obeys_concrete_eq::<K>(),
        decreases recs@.len() - i,
    {
        proof {
            reveal(vstd::laws_eq::obeys_concrete_eq);
        }
        if recs[i].key == *key {
            return Some(i);
        }
        i = i + 1;
    }
    None
}

} // verus!
