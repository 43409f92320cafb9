use crate::domain::Domain;
use crate::entry::{find_key, keys_concrete, Entry, EntryNode};
use crate::guard::Guard;
use vstd::prelude::*;

verus! {

/// The bin array of the map: each bin is a cell (in `entries`) holding a
/// chain of entries, and each entry's value lives in a cell of its own (in
/// `vals`).  Readers take guards on value cells; writers replace value
/// cells or swap whole chains in and out of bin cells, so every historical
/// value survives exactly as long as somebody still holds it.
pub struct Table<K, V> {
    /// Base-two logarithm of the number of bins.
    pub size: usize,
    /// The bin cells, one per slot.
    pub bins: Vec<usize>,
    /// The domain that holds the bin cells.
    pub entries: Domain<Entry<K>>,
    /// The domain that holds the value cells.
    pub vals: Domain<V>,
}

impl<K: Copy + PartialEq, V> Table<K, V> {
    /// Number of bins.
    pub open spec fn nbins(self) -> int {
        self.bins@.len() as int
    }

    /// The chain of bin `i`.
    pub open spec fn chain(self, i: int) -> Seq<EntryNode<K>> {
        self.entries.cur(self.bins@[i] as int).chain()
    }

    /// Entry `j` of bin `i`'s chain.
    pub open spec fn rec(self, i: int, j: int) -> EntryNode<K> {
        self.chain(i)[j]
    }

    /// `(i, j)` names an entry.
    pub open spec fn in_range(self, i: int, j: int) -> bool {
        &&& 0 <= i < self.nbins()
        &&& 0 <= j < self.chain(i).len()
    }

    /// The bin a hash selects.
    pub open spec fn index_spec(self, hash: u64) -> int {
        (hash as int) % self.nbins()
    }

    /// Well-formedness: live distinct bin cells; every entry's value cell
    /// live, keep-less and named by no other entry; every entry filed in
    /// the bin its hash selects; no key twice.
    pub open spec fn wf(self) -> bool {
        &&& self.entries.wf()
        &&& self.vals.wf()
        &&& self.nbins() >= 1
        &&& forall|i: int|
            0 <= i < self.nbins() ==> self.entries.alive(#[trigger] self.bins@[i] as int)
        &&& forall|i1: int, i2: int|
            0 <= i1 < i2 < self.nbins() ==> self.bins@[i1] != self.bins@[i2]
        &&& forall|i: int, j: int|
            #[trigger] self.in_range(i, j) ==> self.vals.alive(self.rec(i, j).val_cell as int)
                && self.vals.cell(self.rec(i, j).val_cell as int).keep_count == 0
                && self.index_spec(self.rec(i, j).hash) == i
        &&& forall|i1: int, j1: int, i2: int, j2: int|
            #[trigger] self.in_range(i1, j1) && #[trigger] self.in_range(i2, j2) && self.rec(
                i1,
                j1,
            ).key == self.rec(i2, j2).key ==> i1 == i2 && j1 == j2
        &&& forall|i1: int, j1: int, i2: int, j2: int|
            #[trigger] self.in_range(i1, j1) && #[trigger] self.in_range(i2, j2) && self.rec(
                i1,
                j1,
            ).val_cell == self.rec(i2, j2).val_cell ==> i1 == i2 && j1 == j2
    }

    /// Every entry's stored hash is the hash of its key.
    pub open spec fn consistent(self, hfn: spec_fn(K) -> u64) -> bool {
        forall|i: int, j: int|
            #[trigger] self.in_range(i, j) ==> self.rec(i, j).hash == hfn(self.rec(i, j).key)
    }

    /// Some entry carries `k`.
    pub open spec fn has_key(self, k: K) -> bool {
        exists|i: int, j: int| #[trigger] self.in_range(i, j) && self.rec(i, j).key == k
    }

    /// The value cell of the entry carrying `k`.
    pub open spec fn val_cell_of(self, k: K) -> int {
        let (i, j): (int, int) = choose|i: int, j: int|
            #[trigger] self.in_range(i, j) && self.rec(i, j).key == k;
        self.rec(i, j).val_cell as int
    }

    /// The table as a map from keys to current values.
    pub open spec fn as_map(self) -> Map<K, V> {
        Map::new(|k: K| self.has_key(k), |k: K| self.vals.cur(self.val_cell_of(k)))
    }

    /// Entry `(i, j)` is the one `as_map` consults for its key.
    pub proof fn lemma_at(self, i: int, j: int)
        requires
            self.wf(),
            self.in_range(i, j),
        ensures
            self.has_key(self.rec(i, j).key),
            self.val_cell_of(self.rec(i, j).key) == self.rec(i, j).val_cell as int,
            self.as_map().contains_key(self.rec(i, j).key),
            self.as_map()[self.rec(i, j).key] == self.vals.cur(self.rec(i, j).val_cell as int),
    {
        let k = self.rec(i, j).key;
        assert(self.in_range(i, j) && self.rec(i, j).key == k);
        assert(self.has_key(k));
        let (i2, j2): (int, int) = choose|i2: int, j2: int|
            #[trigger] self.in_range(i2, j2) && self.rec(i2, j2).key == k;
        assert(i2 == i && j2 == j);
    }

    /// The bin a key's hash selects is the only bin that can carry it.
    pub proof fn lemma_lookup(self, k: K, hash: u64, hfn: spec_fn(K) -> u64)
        requires
            self.wf(),
            self.consistent(hfn),
            hash == hfn(k),
        ensures
            self.has_key(k) <==> (exists|j: int|
                0 <= j < self.chain(self.index_spec(hash)).len() && (#[trigger] self.chain(
                    self.index_spec(hash),
                )[j]).key == k),
            self.has_key(k) ==> self.as_map()[k] == self.vals.cur(self.val_cell_of(k)),
    {
        let i = self.index_spec(hash);
        if self.has_key(k) {
            let (i2, j2): (int, int) = choose|i2: int, j2: int|
                #[trigger] self.in_range(i2, j2) && self.rec(i2, j2).key == k;
            assert(self.in_range(i2, j2));
            assert(self.rec(i2, j2).hash == hfn(k));
            assert(self.index_spec(self.rec(i2, j2).hash) == i2);
            assert(i2 == i);
            assert((self.chain(i)[j2]).key == k);
        }
        if exists|j: int|
            0 <= j < self.chain(i).len() && (#[trigger] self.chain(i)[j]).key == k {
            let j = choose|j: int|
                0 <= j < self.chain(i).len() && (#[trigger] self.chain(i)[j]).key == k;
            assert(0 <= i < self.nbins()) by {
                assert(self.nbins() >= 1);
            }
            assert(self.in_range(i, j) && self.rec(i, j).key == k);
            assert(self.has_key(k));
        }
    }

    /// A table whose bins and value cells only went through bookkeeping —
    /// same chains, same current values — shows the same map.
    pub proof fn lemma_same_content(pre: Self, post: Self)
        requires
            pre.wf(),
            post.bins == pre.bins,
            post.size == pre.size,
            post.entries.wf(),
            post.vals.wf(),
            forall|c: int|
                #[trigger] pre.entries.alive(c) ==> post.entries.alive(c) && post.entries.cur(c)
                    == pre.entries.cur(c),
            forall|c: int|
                #[trigger] pre.vals.alive(c) ==> post.vals.alive(c) && post.vals.cur(c)
                    == pre.vals.cur(c) && post.vals.cell(c).keep_count == pre.vals.cell(
                    c,
                ).keep_count,
        ensures
            post.wf(),
            post.as_map() == pre.as_map(),
            forall|i: int| 0 <= i < pre.nbins() ==> post.chain(i) == pre.chain(i),
            forall|hfn: spec_fn(K) -> u64| pre.consistent(hfn) ==> post.consistent(hfn),
            forall|k: K| post.has_key(k) <==> pre.has_key(k),
    {
        assert forall|i: int| 0 <= i < pre.nbins() implies post.chain(i) == pre.chain(i)
            && post.entries.alive(post.bins@[i] as int) by {
            assert(pre.entries.alive(pre.bins@[i] as int));
        }
        assert forall|i: int, j: int| #[trigger] post.in_range(i, j) implies pre.in_range(i, j)
            && post.rec(i, j) == pre.rec(i, j) by {
            assert(post.chain(i) == pre.chain(i));
        }
        assert forall|i: int, j: int| #[trigger] pre.in_range(i, j) implies post.in_range(i, j)
            && post.rec(i, j) == pre.rec(i, j) by {
            assert(post.chain(i) == pre.chain(i));
        }
        assert forall|i: int, j: int| #[trigger] post.in_range(i, j) implies post.vals.alive(
            post.rec(i, j).val_cell as int,
        ) && post.vals.cell(post.rec(i, j).val_cell as int).keep_count == 0 && post.index_spec(
            post.rec(i, j).hash,
        ) == i by {
            assert(pre.in_range(i, j));
            assert(pre.vals.alive(pre.rec(i, j).val_cell as int));
        }
        assert(post.wf());
        assert forall|k: K| post.has_key(k) <==> pre.has_key(k) by {
            if post.has_key(k) {
                let (i, j): (int, int) = choose|i: int, j: int|
                    #[trigger] post.in_range(i, j) && post.rec(i, j).key == k;
                assert(pre.in_range(i, j) && pre.rec(i, j).key == k);
                assert(pre.has_key(k));
            }
            if pre.has_key(k) {
                let (i, j): (int, int) = choose|i: int, j: int|
                    #[trigger] pre.in_range(i, j) && pre.rec(i, j).key == k;
                assert(post.in_range(i, j) && post.rec(i, j).key == k);
                assert(post.has_key(k));
            }
        }
        assert forall|k: K| #[trigger]
            post.as_map().contains_key(k) implies post.as_map()[k] == pre.as_map()[k] by {
            let (i, j): (int, int) = choose|i: int, j: int|
                #[trigger] pre.in_range(i, j) && pre.rec(i, j).key == k;
            assert(pre.has_key(k));
            assert(pre.in_range(i, j) && pre.rec(i, j).key == k);
            pre.lemma_at(i, j);
            post.lemma_at(i, j);
            assert(pre.vals.alive(pre.rec(i, j).val_cell as int));
        }
        assert(post.as_map() =~= pre.as_map());
        assert forall|hfn: spec_fn(K) -> u64|
            pre.consistent(hfn) implies post.consistent(hfn) by {
            assert forall|i: int, j: int| #[trigger] post.in_range(i, j) implies post.rec(
                i,
                j,
            ).hash == hfn(post.rec(i, j).key) by {
                assert(pre.in_range(i, j));
            }
        }
    }

    /// Replacing the value in the cell of entry `(i, j)` updates the map at
    /// that entry's key and nothing else.
    pub proof fn lemma_value_swapped(pre: Self, post: Self, i: int, j: int, x: V)
        requires
            pre.wf(),
            pre.in_range(i, j),
            post.bins == pre.bins,
            post.size == pre.size,
            post.entries.wf(),
            post.vals.wf(),
            forall|c: int|
                #[trigger] pre.entries.alive(c) ==> post.entries.alive(c) && post.entries.cur(c)
                    == pre.entries.cur(c),
            forall|c: int|
                #[trigger] pre.vals.alive(c) && c != pre.rec(i, j).val_cell as int
                    ==> post.vals.alive(c) && post.vals.cur(c) == pre.vals.cur(c)
                    && post.vals.cell(c).keep_count == pre.vals.cell(c).keep_count,
            post.vals.alive(pre.rec(i, j).val_cell as int),
            post.vals.cur(pre.rec(i, j).val_cell as int) == x,
            post.vals.cell(pre.rec(i, j).val_cell as int).keep_count == 0,
        ensures
            post.wf(),
            post.as_map() == pre.as_map().insert(pre.rec(i, j).key, x),
            forall|hfn: spec_fn(K) -> u64| pre.consistent(hfn) ==> post.consistent(hfn),
    {
        let vc = pre.rec(i, j).val_cell as int;
        let key = pre.rec(i, j).key;
        assert forall|i2: int| 0 <= i2 < pre.nbins() implies post.chain(i2) == pre.chain(i2)
            && post.entries.alive(post.bins@[i2] as int) by {
            assert(pre.entries.alive(pre.bins@[i2] as int));
        }
        assert forall|i2: int, j2: int| #[trigger] post.in_range(i2, j2) implies pre.in_range(
            i2,
            j2,
        ) && post.rec(i2, j2) == pre.rec(i2, j2) by {
            assert(post.chain(i2) == pre.chain(i2));
        }
        assert forall|i2: int, j2: int| #[trigger] pre.in_range(i2, j2) implies post.in_range(
            i2,
            j2,
        ) && post.rec(i2, j2) == pre.rec(i2, j2) by {
            assert(post.chain(i2) == pre.chain(i2));
        }
        assert forall|i2: int, j2: int| #[trigger] post.in_range(i2, j2) implies post.vals.alive(
            post.rec(i2, j2).val_cell as int,
        ) && post.vals.cell(post.rec(i2, j2).val_cell as int).keep_count == 0 && post.index_spec(
            post.rec(i2, j2).hash,
        ) == i2 by {
            assert(pre.in_range(i2, j2));
            assert(pre.vals.alive(pre.rec(i2, j2).val_cell as int));
            if pre.rec(i2, j2).val_cell as int != vc {
            } else {
                assert(pre.vals.cell(vc).keep_count == 0);
            }
        }
        assert(post.wf());
        assert forall|hfn: spec_fn(K) -> u64|
            pre.consistent(hfn) implies post.consistent(hfn) by {
            assert forall|i2: int, j2: int| #[trigger] post.in_range(i2, j2) implies post.rec(
                i2,
                j2,
            ).hash == hfn(post.rec(i2, j2).key) by {
                assert(pre.in_range(i2, j2));
            }
        }
        pre.lemma_at(i, j);
        post.lemma_at(i, j);
        assert forall|k2: K| #[trigger]
            post.as_map().contains_key(k2) == pre.as_map().insert(key, x).contains_key(k2) by {
            if post.has_key(k2) {
                let (i2, j2): (int, int) = choose|i2: int, j2: int|
                    #[trigger] post.in_range(i2, j2) && post.rec(i2, j2).key == k2;
                assert(pre.in_range(i2, j2) && pre.rec(i2, j2).key == k2);
                assert(pre.has_key(k2));
            }
            if pre.has_key(k2) {
                let (i2, j2): (int, int) = choose|i2: int, j2: int|
                    #[trigger] pre.in_range(i2, j2) && pre.rec(i2, j2).key == k2;
                assert(post.in_range(i2, j2) && post.rec(i2, j2).key == k2);
                assert(post.has_key(k2));
            }
        }
        assert forall|k2: K| #[trigger]
            post.as_map().contains_key(k2) implies post.as_map()[k2] == pre.as_map().insert(
            key,
            x,
        )[k2] by {
            let (i2, j2): (int, int) = choose|i2: int, j2: int|
                #[trigger] post.in_range(i2, j2) && post.rec(i2, j2).key == k2;
            assert(pre.in_range(i2, j2) && pre.rec(i2, j2).key == k2);
            pre.lemma_at(i2, j2);
            post.lemma_at(i2, j2);
            if k2 == key {
                assert(i2 == i && j2 == j);
            } else {
                assert(!(i2 == i && j2 == j));
                assert(pre.rec(i2, j2).val_cell as int != vc);
                assert(pre.vals.alive(pre.rec(i2, j2).val_cell as int));
            }
        }
        assert(post.as_map() =~= pre.as_map().insert(key, x));
    }

    /// Appending a fresh entry to the bin its hash selects adds exactly that
    /// key to the map.
    pub proof fn lemma_chain_grown(pre: Self, post: Self, i: int, r: EntryNode<K>, x: V)
        requires
            pre.wf(),
            0 <= i < pre.nbins(),
            !pre.has_key(r.key),
            pre.index_spec(r.hash) == i,
            post.bins == pre.bins,
            post.size == pre.size,
            post.entries.wf(),
            post.vals.wf(),
            forall|c: int|
                #[trigger] pre.entries.alive(c) && c != pre.bins@[i] as int ==> post.entries.alive(
                    c,
                ) && post.entries.cur(c) == pre.entries.cur(c),
            post.entries.alive(pre.bins@[i] as int),
            post.entries.cur(pre.bins@[i] as int).chain() == pre.chain(i).push(r),
            forall|c: int|
                #[trigger] pre.vals.alive(c) ==> post.vals.alive(c) && post.vals.cur(c)
                    == pre.vals.cur(c) && post.vals.cell(c).keep_count == pre.vals.cell(
                    c,
                ).keep_count,
            post.vals.alive(r.val_cell as int),
            post.vals.cur(r.val_cell as int) == x,
            post.vals.cell(r.val_cell as int).keep_count == 0,
            !pre.vals.has_cell(r.val_cell as int),
        ensures
            post.wf(),
            post.as_map() == pre.as_map().insert(r.key, x),
            forall|hfn: spec_fn(K) -> u64|
                pre.consistent(hfn) && r.hash == hfn(r.key) ==> post.consistent(hfn),
    {
        let key = r.key;
        assert forall|i2: int| 0 <= i2 < pre.nbins() && i2 != i implies post.chain(i2)
            == pre.chain(i2) && post.entries.alive(post.bins@[i2] as int) by {
            assert(pre.entries.alive(pre.bins@[i2] as int));
            assert(pre.bins@[i2] != pre.bins@[i]);
        }
        assert(post.chain(i) == pre.chain(i).push(r));
        assert forall|i2: int, j2: int| #[trigger] post.in_range(i2, j2) implies (pre.in_range(
            i2,
            j2,
        ) && post.rec(i2, j2) == pre.rec(i2, j2)) || (i2 == i && j2 == pre.chain(i).len()
            && post.rec(i2, j2) == r) by {
            if i2 != i {
                assert(post.chain(i2) == pre.chain(i2));
            }
        }
        assert forall|i2: int, j2: int| #[trigger] pre.in_range(i2, j2) implies post.in_range(
            i2,
            j2,
        ) && post.rec(i2, j2) == pre.rec(i2, j2) by {
            if i2 != i {
                assert(post.chain(i2) == pre.chain(i2));
            }
        }
        assert forall|i2: int, j2: int| #[trigger] post.in_range(i2, j2) implies post.vals.alive(
            post.rec(i2, j2).val_cell as int,
        ) && post.vals.cell(post.rec(i2, j2).val_cell as int).keep_count == 0 && post.index_spec(
            post.rec(i2, j2).hash,
        ) == i2 by {
            if pre.in_range(i2, j2) && post.rec(i2, j2) == pre.rec(i2, j2) {
                assert(pre.vals.alive(pre.rec(i2, j2).val_cell as int));
            } else {
                assert(post.rec(i2, j2) == r);
            }
        }
        // distinctness: the fresh value cell differs from every old one, and
        // the new key from every old key
        assert forall|i2: int, j2: int|
            #[trigger] pre.in_range(i2, j2) implies pre.rec(i2, j2).key != key && pre.rec(
            i2,
            j2,
        ).val_cell as int != r.val_cell as int by {
            if pre.rec(i2, j2).key == key {
                assert(pre.has_key(key));
            }
            assert(pre.vals.alive(pre.rec(i2, j2).val_cell as int));
        }
        assert forall|i1: int, j1: int, i2: int, j2: int|
            #[trigger] post.in_range(i1, j1) && #[trigger] post.in_range(i2, j2) && post.rec(
                i1,
                j1,
            ).key == post.rec(i2, j2).key implies i1 == i2 && j1 == j2 by {
            if pre.in_range(i1, j1) && post.rec(i1, j1) == pre.rec(i1, j1) {
                if pre.in_range(i2, j2) && post.rec(i2, j2) == pre.rec(i2, j2) {
                } else {
                    assert(post.rec(i2, j2) == r);
                    assert(pre.rec(i1, j1).key != key);
                }
            } else {
                assert(post.rec(i1, j1) == r);
                if pre.in_range(i2, j2) && post.rec(i2, j2) == pre.rec(i2, j2) {
                    assert(pre.rec(i2, j2).key != key);
                }
            }
        }
        assert forall|i1: int, j1: int, i2: int, j2: int|
            #[trigger] post.in_range(i1, j1) && #[trigger] post.in_range(i2, j2) && post.rec(
                i1,
                j1,
            ).val_cell == post.rec(i2, j2).val_cell implies i1 == i2 && j1 == j2 by {
            if pre.in_range(i1, j1) && post.rec(i1, j1) == pre.rec(i1, j1) {
                if pre.in_range(i2, j2) && post.rec(i2, j2) == pre.rec(i2, j2) {
                } else {
                    assert(post.rec(i2, j2) == r);
                }
            } else {
                assert(post.rec(i1, j1) == r);
                if pre.in_range(i2, j2) && post.rec(i2, j2) == pre.rec(i2, j2) {
                }
            }
        }
        assert(post.wf());
        assert forall|hfn: spec_fn(K) -> u64|
            pre.consistent(hfn) && r.hash == hfn(r.key) implies post.consistent(hfn) by {
            assert forall|i2: int, j2: int| #[trigger] post.in_range(i2, j2) implies post.rec(
                i2,
                j2,
            ).hash == hfn(post.rec(i2, j2).key) by {
                if pre.in_range(i2, j2) && post.rec(i2, j2) == pre.rec(i2, j2) {
                } else {
                    assert(post.rec(i2, j2) == r);
                }
            }
        }
        assert(post.in_range(i, pre.chain(i).len() as int));
        assert(post.rec(i, pre.chain(i).len() as int) == r);
        post.lemma_at(i, pre.chain(i).len() as int);
        assert forall|k2: K| #[trigger]
            post.as_map().contains_key(k2) == pre.as_map().insert(key, x).contains_key(k2) by {
            if post.has_key(k2) && k2 != key {
                let (i2, j2): (int, int) = choose|i2: int, j2: int|
                    #[trigger] post.in_range(i2, j2) && post.rec(i2, j2).key == k2;
                assert(pre.in_range(i2, j2) && pre.rec(i2, j2).key == k2) by {
                    if !(pre.in_range(i2, j2) && post.rec(i2, j2) == pre.rec(i2, j2)) {
                        assert(post.rec(i2, j2) == r);
                    }
                }
                assert(pre.has_key(k2));
            }
            if pre.has_key(k2) {
                let (i2, j2): (int, int) = choose|i2: int, j2: int|
                    #[trigger] pre.in_range(i2, j2) && pre.rec(i2, j2).key == k2;
                assert(post.in_range(i2, j2) && post.rec(i2, j2).key == k2);
                assert(post.has_key(k2));
            }
        }
        assert forall|k2: K| #[trigger]
            post.as_map().contains_key(k2) implies post.as_map()[k2] == pre.as_map().insert(
            key,
            x,
        )[k2] by {
            let (i2, j2): (int, int) = choose|i2: int, j2: int|
                #[trigger] post.in_range(i2, j2) && post.rec(i2, j2).key == k2;
            post.lemma_at(i2, j2);
            if k2 == key {
                assert(i2 == i && j2 == pre.chain(i).len());
                assert(post.rec(i2, j2) == r);
            } else {
                assert(pre.in_range(i2, j2) && pre.rec(i2, j2) == post.rec(i2, j2)) by {
                    if !(pre.in_range(i2, j2) && post.rec(i2, j2) == pre.rec(i2, j2)) {
                        assert(post.rec(i2, j2) == r);
                    }
                }
                pre.lemma_at(i2, j2);
                assert(pre.vals.alive(pre.rec(i2, j2).val_cell as int));
            }
        }
        assert(post.as_map() =~= pre.as_map().insert(key, x));
    }

    /// Dropping entry `(i, j)` from its chain removes exactly that entry's
    /// key from the map.
    pub proof fn lemma_chain_shrunk(pre: Self, post: Self, i: int, j: int)
        requires
            pre.wf(),
            pre.in_range(i, j),
            post.bins == pre.bins,
            post.size == pre.size,
            post.entries.wf(),
            post.vals.wf(),
            forall|c: int|
                #[trigger] pre.entries.alive(c) && c != pre.bins@[i] as int ==> post.entries.alive(
                    c,
                ) && post.entries.cur(c) == pre.entries.cur(c),
            post.entries.alive(pre.bins@[i] as int),
            post.entries.cur(pre.bins@[i] as int).chain() == pre.chain(i).remove(j),
            forall|c: int|
                #[trigger] pre.vals.alive(c) && c != pre.rec(i, j).val_cell as int
                    ==> post.vals.alive(c) && post.vals.cur(c) == pre.vals.cur(c)
                    && post.vals.cell(c).keep_count == pre.vals.cell(c).keep_count,
        ensures
            post.wf(),
            post.as_map() == pre.as_map().remove(pre.rec(i, j).key),
            forall|hfn: spec_fn(K) -> u64| pre.consistent(hfn) ==> post.consistent(hfn),
    {
        let key = pre.rec(i, j).key;
        let vc = pre.rec(i, j).val_cell as int;
        assert forall|i2: int| 0 <= i2 < pre.nbins() && i2 != i implies post.chain(i2)
            == pre.chain(i2) && post.entries.alive(post.bins@[i2] as int) by {
            assert(pre.entries.alive(pre.bins@[i2] as int));
            assert(pre.bins@[i2] != pre.bins@[i]);
        }
        assert(post.chain(i) == pre.chain(i).remove(j));
        // each surviving entry comes from one old position
        let back = |i2: int, j2: int| if i2 == i && j2 >= j { j2 + 1 } else { j2 };
        assert forall|i2: int, j2: int| #[trigger] post.in_range(i2, j2) implies pre.in_range(
            i2,
            back(i2, j2),
        ) && post.rec(i2, j2) == pre.rec(i2, back(i2, j2)) && !(i2 == i && back(i2, j2) == j) by {
            if i2 != i {
                assert(post.chain(i2) == pre.chain(i2));
            } else {
                assert(post.chain(i) == pre.chain(i).remove(j));
                if j2 < j {
                    assert(pre.chain(i).remove(j)[j2] == pre.chain(i)[j2]);
                } else {
                    assert(pre.chain(i).remove(j)[j2] == pre.chain(i)[j2 + 1]);
                }
            }
        }
        assert forall|i2: int, j2: int| #[trigger] post.in_range(i2, j2) implies post.vals.alive(
            post.rec(i2, j2).val_cell as int,
        ) && post.vals.cell(post.rec(i2, j2).val_cell as int).keep_count == 0 && post.index_spec(
            post.rec(i2, j2).hash,
        ) == i2 by {
            let bj = back(i2, j2);
            assert(pre.in_range(i2, bj));
            assert(pre.vals.alive(pre.rec(i2, bj).val_cell as int));
            assert(pre.rec(i2, bj).val_cell as int != vc) by {
                if pre.rec(i2, bj).val_cell as int == vc {
                    assert(i2 == i && bj == j);
                }
            }
        }
        assert forall|i1: int, j1: int, i2: int, j2: int|
            #[trigger] post.in_range(i1, j1) && #[trigger] post.in_range(i2, j2) && post.rec(
                i1,
                j1,
            ).key == post.rec(i2, j2).key implies i1 == i2 && j1 == j2 by {
            let b1 = back(i1, j1);
            let b2 = back(i2, j2);
            assert(pre.in_range(i1, b1) && pre.in_range(i2, b2));
            assert(i1 == i2 && b1 == b2);
        }
        assert forall|i1: int, j1: int, i2: int, j2: int|
            #[trigger] post.in_range(i1, j1) && #[trigger] post.in_range(i2, j2) && post.rec(
                i1,
                j1,
            ).val_cell == post.rec(i2, j2).val_cell implies i1 == i2 && j1 == j2 by {
            let b1 = back(i1, j1);
            let b2 = back(i2, j2);
            assert(pre.in_range(i1, b1) && pre.in_range(i2, b2));
            assert(i1 == i2 && b1 == b2);
        }
        assert(post.wf());
        assert forall|hfn: spec_fn(K) -> u64|
            pre.consistent(hfn) implies post.consistent(hfn) by {
            assert forall|i2: int, j2: int| #[trigger] post.in_range(i2, j2) implies post.rec(
                i2,
                j2,
            ).hash == hfn(post.rec(i2, j2).key) by {
                let bj = back(i2, j2);
                assert(pre.in_range(i2, bj));
            }
        }
        assert forall|k2: K| #[trigger]
            post.as_map().contains_key(k2) == pre.as_map().remove(key).contains_key(k2) by {
            if post.has_key(k2) {
                let (i2, j2): (int, int) = choose|i2: int, j2: int|
                    #[trigger] post.in_range(i2, j2) && post.rec(i2, j2).key == k2;
                let bj = back(i2, j2);
                assert(pre.in_range(i2, bj) && pre.rec(i2, bj).key == k2);
                assert(pre.has_key(k2));
                if k2 == key {
                    assert(i2 == i && bj == j);
                }
            }
            if pre.has_key(k2) && k2 != key {
                let (i2, j2): (int, int) = choose|i2: int, j2: int|
                    #[trigger] pre.in_range(i2, j2) && pre.rec(i2, j2).key == k2;
                assert(!(i2 == i && j2 == j));
                if i2 != i {
                    assert(post.in_range(i2, j2) && post.rec(i2, j2).key == k2);
                } else {
                    if j2 < j {
                        assert(post.chain(i)[j2] == pre.chain(i)[j2]);
                        assert(post.in_range(i2, j2) && post.rec(i2, j2).key == k2);
                    } else {
                        assert(post.chain(i)[j2 - 1] == pre.chain(i)[j2]);
                        assert(post.in_range(i2, j2 - 1) && post.rec(i2, j2 - 1).key == k2);
                    }
                }
                assert(post.has_key(k2));
            }
        }
        assert forall|k2: K| #[trigger]
            post.as_map().contains_key(k2) implies post.as_map()[k2] == pre.as_map().remove(
            key,
        )[k2] by {
            let (i2, j2): (int, int) = choose|i2: int, j2: int|
                #[trigger] post.in_range(i2, j2) && post.rec(i2, j2).key == k2;
            post.lemma_at(i2, j2);
            let bj = back(i2, j2);
            assert(pre.in_range(i2, bj) && pre.rec(i2, bj) == post.rec(i2, j2));
            pre.lemma_at(i2, bj);
            assert(k2 != key) by {
                if k2 == key {
                    assert(i2 == i && bj == j);
                }
            }
            assert(pre.rec(i2, bj).val_cell as int != vc) by {
                if pre.rec(i2, bj).val_cell as int == vc {
                    assert(i2 == i && bj == j);
                }
            }
            assert(pre.vals.alive(pre.rec(i2, bj).val_cell as int));
        }
        assert(post.as_map() =~= pre.as_map().remove(key));
    }

    /// A table with `1 << size` empty bins (the size is clamped so the
    /// array always fits).
    pub fn new(size: usize) -> (r: Self)
        ensures
            r.wf(),
            r.as_map() == Map::<K, V>::empty(),
            forall|i: int| 0 <= i < r.nbins() ==> r.chain(i).len() == 0,
            forall|hfn: spec_fn(K) -> u64| r.consistent(hfn),
    {
        let size = if size > 16 {
            16
        } else {
            size
        };
        let nb = 1usize << size;
        proof {
            assert(size <= 16 ==> (1usize << size) >= 1) by (bit_vector);
        }
        let mut bins: Vec<usize> = Vec::new();
        let mut entries: Domain<Entry<K>> = Domain::new();
        let vals: Domain<V> = Domain::new();
        let mut i: usize = 0;
        while i < nb
            invariant
                entries.wf(),
                bins@.len() == i,
                i <= nb,
                forall|x: int|
                    0 <= x < i ==> entries.alive(#[trigger] bins@[x] as int) && entries.cur(
                        bins@[x] as int,
                    ) == Entry::<K>::Empty,
                forall|x1: int, x2: int| 0 <= x1 < x2 < i ==> bins@[x1] != bins@[x2],
                forall|x: int| 0 <= x < i ==> bins@[x] < entries.cells@.len(),
            decreases nb - i,
        {
            let ghost pre_entries = entries;
            let c = entries.new_cell(Entry::Empty);
            bins.push(c);
            i = i + 1;
            proof {
                assert forall|x: int|
                    0 <= x < i implies entries.alive(#[trigger] bins@[x] as int) && entries.cur(
                    bins@[x] as int,
                ) == Entry::<K>::Empty by {
                    if x < i - 1 {
                        assert(pre_entries.alive(bins@[x] as int));
                    }
                }
            }
        }
        let r = Table { size, bins, entries, vals };
        proof {
            assert(r.nbins() >= 1);
            assert forall|i2: int| 0 <= i2 < r.nbins() implies r.entries.alive(
                #[trigger] r.bins@[i2] as int,
            ) && r.chain(i2).len() == 0 by {
                assert(r.entries.cur(r.bins@[i2] as int) == Entry::<K>::Empty);
            }
            assert forall|k: K| !r.has_key(k) by {
                if r.has_key(k) {
                    let (i2, j2): (int, int) = choose|i2: int, j2: int|
                        #[trigger] r.in_range(i2, j2) && r.rec(i2, j2).key == k;
                    assert(r.chain(i2).len() == 0);
                }
            }
            assert(r.as_map() =~= Map::<K, V>::empty());
        }
        r
    }

    /// The bin index for `hash`.
    fn index_of(&self, hash: u64) -> (i: usize)
        requires
            self.bins@.len() >= 1,
        ensures
            i as int == self.index_spec(hash),
            i < self.bins@.len(),
    {
        (hash % (self.bins.len() as u64)) as usize
    }

    /// Retiring a value cell no chain names leaves the map untouched.
    pub proof fn lemma_val_retired(pre: Self, post: Self, vc: int)
        requires
            pre.wf(),
            post.bins == pre.bins,
            post.size == pre.size,
            post.entries.wf(),
            post.vals.wf(),
            forall|c: int|
                #[trigger] pre.entries.alive(c) ==> post.entries.alive(c) && post.entries.cur(c)
                    == pre.entries.cur(c),
            forall|c: int|
                #[trigger] pre.vals.alive(c) && c != vc ==> post.vals.alive(c) && post.vals.cur(c)
                    == pre.vals.cur(c) && post.vals.cell(c).keep_count == pre.vals.cell(
                    c,
                ).keep_count,
            forall|i: int, j: int| #[trigger] pre.in_range(i, j) ==> pre.rec(i, j).val_cell as int != vc,
        ensures
            post.wf(),
            post.as_map() == pre.as_map(),
            forall|i: int| 0 <= i < pre.nbins() ==> post.chain(i) == pre.chain(i),
            forall|hfn: spec_fn(K) -> u64| pre.consistent(hfn) ==> post.consistent(hfn),
    {
        assert forall|i: int| 0 <= i < pre.nbins() implies post.chain(i) == pre.chain(i)
            && post.entries.alive(post.bins@[i] as int) by {
            assert(pre.entries.alive(pre.bins@[i] as int));
        }
        assert forall|i2: int, j2: int| #[trigger] post.in_range(i2, j2) implies pre.in_range(
            i2,
            j2,
        ) && post.rec(i2, j2) == pre.rec(i2, j2) by {
            assert(post.chain(i2) == pre.chain(i2));
        }
        assert forall|i2: int, j2: int| #[trigger] pre.in_range(i2, j2) implies post.in_range(
            i2,
            j2,
        ) && post.rec(i2, j2) == pre.rec(i2, j2) by {
            assert(post.chain(i2) == pre.chain(i2));
        }
        assert forall|i2: int, j2: int| #[trigger] post.in_range(i2, j2) implies post.vals.alive(
            post.rec(i2, j2).val_cell as int,
        ) && post.vals.cell(post.rec(i2, j2).val_cell as int).keep_count == 0 && post.index_spec(
            post.rec(i2, j2).hash,
        ) == i2 by {
            assert(pre.in_range(i2, j2));
            assert(pre.vals.alive(pre.rec(i2, j2).val_cell as int));
            assert(pre.rec(i2, j2).val_cell as int != vc);
        }
        assert(post.wf());
        assert forall|hfn: spec_fn(K) -> u64|
            pre.consistent(hfn) implies post.consistent(hfn) by {
            assert forall|i2: int, j2: int| #[trigger] post.in_range(i2, j2) implies post.rec(
                i2,
                j2,
            ).hash == hfn(post.rec(i2, j2).key) by {
                assert(pre.in_range(i2, j2));
            }
        }
        assert forall|k: K| post.has_key(k) <==> pre.has_key(k) by {
            if post.has_key(k) {
                let (i2, j2): (int, int) = choose|i2: int, j2: int|
                    #[trigger] post.in_range(i2, j2) && post.rec(i2, j2).key == k;
                assert(pre.in_range(i2, j2) && pre.rec(i2, j2).key == k);
                assert(pre.has_key(k));
            }
            if pre.has_key(k) {
                let (i2, j2): (int, int) = choose|i2: int, j2: int|
                    #[trigger] pre.in_range(i2, j2) && pre.rec(i2, j2).key == k;
                assert(post.in_range(i2, j2) && post.rec(i2, j2).key == k);
                assert(post.has_key(k));
            }
        }
        assert forall|k: K| #[trigger]
            post.as_map().contains_key(k) implies post.as_map()[k] == pre.as_map()[k] by {
            let (i2, j2): (int, int) = choose|i2: int, j2: int|
                #[trigger] pre.in_range(i2, j2) && pre.rec(i2, j2).key == k;
            assert(pre.has_key(k));
            assert(pre.in_range(i2, j2) && pre.rec(i2, j2).key == k);
            pre.lemma_at(i2, j2);
            post.lemma_at(i2, j2);
            assert(pre.vals.alive(pre.rec(i2, j2).val_cell as int));
            assert(pre.rec(i2, j2).val_cell as int != vc);
        }
        assert(post.as_map() =~= pre.as_map());
    }

    /// Looks the key up: a readership on its current value, or `None`.
    pub fn get(&mut self, key: &K, hash: u64, Ghost(hfn): Ghost<spec_fn(K) -> u64>) -> (r: Option<
        Guard,
    >)
        requires
            old(self).wf(),
            keys_concrete::<K>(),
            old(self).consistent(hfn),
            hash == hfn(*key),
        ensures
            final(self).wf(),
            final(self).consistent(hfn),
            final(self).as_map() == old(self).as_map(),
            Domain::guards_kept(old(self).vals, final(self).vals),
            r is Some <==> old(self).as_map().contains_key(*key),
            r matches Some(g) ==> g.valid(final(self).vals) && g.value_spec(final(self).vals)
                == old(self).as_map()[*key],
    {
        let ghost pre = *self;
        let i = self.index_of(hash);
        let bin = self.bins[i];
        let g = self.entries.read_cell(bin);
        let vc_opt = {
            let e = g.value(&self.entries);
            e.search(key)
        };
        proof {
            assert(g.value_spec(self.entries) == pre.entries.cur(bin as int));
            assert(pre.chain(i as int) == pre.entries.cur(bin as int).chain());
            pre.lemma_lookup(*key, hash, hfn);
        }
        g.release(&mut self.entries);
        let ghost mid = *self;
        proof {
            Self::lemma_same_content(pre, *self);
        }
        match vc_opt {
            Some(vc) => {
                proof {
                    let j = choose|j: int|
                        0 <= j < pre.chain(i as int).len() && (#[trigger] pre.chain(
                            i as int,
                        )[j]).key == *key;
                    assert(pre.in_range(i as int, j) && pre.rec(i as int, j).key == *key);
                    assert(pre.has_key(*key));
                    let j2 = choose|j2: int|
                        0 <= j2 < pre.chain(i as int).len() && (#[trigger] pre.chain(
                            i as int,
                        )[j2]).key == *key && pre.chain(i as int)[j2].val_cell == vc;
                    assert(pre.in_range(i as int, j2));
                    pre.lemma_at(i as int, j2);
                    assert(pre.vals.alive(vc as int));
                    assert(self.vals.alive(vc as int));
                }
                let gv = self.vals.read_cell(vc);
                proof {
                    Self::lemma_same_content(mid, *self);
                }
                Some(gv)
            },
            None => {
                proof {
                    if pre.has_key(*key) {
                        assert(exists|j: int|
                            0 <= j < pre.chain(i as int).len() && (#[trigger] pre.chain(
                                i as int,
                            )[j]).key == *key);
                    }
                }
                None
            },
        }
    }

    /// Binds `key` to `val`.  If the key was already bound, its value cell
    /// is swapped — the old value comes back as a guard, and readers who
    /// took it earlier keep it for as long as they like; otherwise the bin's
    /// chain is extended by a compare-exchange on the bin cell.
    pub fn insert(&mut self, key: K, val: V, hash: u64, Ghost(hfn): Ghost<spec_fn(K) -> u64>) -> (r:
        Option<Guard>)
        requires
            old(self).wf(),
            keys_concrete::<K>(),
            old(self).consistent(hfn),
            hash == hfn(key),
        ensures
            final(self).wf(),
            final(self).consistent(hfn),
            final(self).as_map() == old(self).as_map().insert(key, val),
            Domain::guards_kept(old(self).vals, final(self).vals),
            r is Some <==> old(self).as_map().contains_key(key),
            r matches Some(g) ==> g.valid(final(self).vals) && g.value_spec(final(self).vals)
                == old(self).as_map()[key],
    {
        let ghost pre = *self;
        let i = self.index_of(hash);
        let bin = self.bins[i];
        let g = self.entries.read_cell(bin);
        let mut chain_copy: Vec<EntryNode<K>> = Vec::new();
        let found = {
            let e = g.value(&self.entries);
            match e {
                Entry::Empty => None,
                Entry::Head(recs) => {
                    chain_copy = crate::entry::copy_chain(recs);
                    find_key(recs, &key)
                },
            }
        };
        proof {
            assert(g.value_spec(self.entries) == pre.entries.cur(bin as int));
            assert(chain_copy@ =~= pre.chain(i as int));
            pre.lemma_lookup(key, hash, hfn);
        }
        match found {
            Some(j) => {
                let vc = chain_copy[j].val_cell;
                proof {
                    assert(pre.in_range(i as int, j as int) && pre.rec(i as int, j as int).key
                        == key);
                    pre.lemma_at(i as int, j as int);
                    assert(pre.has_key(key));
                    assert(pre.vals.alive(vc as int));
                }
                g.release(&mut self.entries);
                let ghost mid = *self;
                proof {
                    Self::lemma_same_content(pre, mid);
                    assert(mid.vals == pre.vals);
                    assert(mid.vals.alive(vc as int));
                }
                let gv = self.vals.swap_cell(vc, val);
                proof {
                    assert(mid.in_range(i as int, j as int));
                    assert(mid.rec(i as int, j as int) == pre.rec(i as int, j as int));
                    Self::lemma_value_swapped(mid, *self, i as int, j as int, val);
                    mid.lemma_at(i as int, j as int);
                    assert(self.as_map() =~= pre.as_map().insert(key, val));
                }
                Some(gv)
            },
            None => {
                proof {
                    assert(!pre.has_key(key)) by {
                        if pre.has_key(key) {
                            let j2 = choose|j2: int|
                                0 <= j2 < pre.chain(i as int).len() && (#[trigger] pre.chain(
                                    i as int,
                                )[j2]).key == key;
                            assert(chain_copy@[j2].key == key);
                        }
                    }
                    assert(!pre.as_map().contains_key(key));
                }
                let vc = self.vals.new_cell(val);
                let mut new_chain = chain_copy;
                new_chain.push(EntryNode { key, hash, val_cell: vc });
                let new_entry = Entry::Head(new_chain);
                let ghost nrec = EntryNode { key, hash, val_cell: vc };
                proof {
                    assert(new_entry.chain() =~= pre.chain(i as int).push(nrec));
                }
                match self.entries.exchange_cell(bin, &g, new_entry) {
                    Ok(old_g) => {
                        let ghost t2 = *self;
                        proof {
                            assert(t2.entries.cur(bin as int).chain() == pre.chain(i as int).push(
                                nrec,
                            ));
                            Self::lemma_chain_grown(pre, t2, i as int, nrec, val);
                            assert(g != old_g) by {
                                assert(g.node != old_g.node);
                            }
                        }
                        old_g.release(&mut self.entries);
                        let ghost t3 = *self;
                        proof {
                            Self::lemma_same_content(t2, t3);
                        }
                        g.release(&mut self.entries);
                        proof {
                            Self::lemma_same_content(t3, *self);
                            assert(self.as_map() =~= pre.as_map().insert(key, val));
                        }
                        None
                    },
                    Err(_) => {
                        proof {
                            assert(false);
                        }
                        vstd::pervasive::unreached()
                    },
                }
            },
        }
    }

    /// Unbinds `key`: the bin's chain is replaced without the entry, the
    /// entry's value cell is retired, and the removed value comes back as a
    /// guard — live for as long as the caller keeps it.
    pub fn remove(&mut self, key: &K, hash: u64, Ghost(hfn): Ghost<spec_fn(K) -> u64>) -> (r:
        Option<Guard>)
        requires
            old(self).wf(),
            keys_concrete::<K>(),
            old(self).consistent(hfn),
            hash == hfn(*key),
        ensures
            final(self).wf(),
            final(self).consistent(hfn),
            final(self).as_map() == old(self).as_map().remove(*key),
            Domain::guards_kept(old(self).vals, final(self).vals),
            r is Some <==> old(self).as_map().contains_key(*key),
            r matches Some(g) ==> g.valid(final(self).vals) && g.value_spec(final(self).vals)
                == old(self).as_map()[*key],
    {
        let ghost pre = *self;
        let i = self.index_of(hash);
        let bin = self.bins[i];
        let g = self.entries.read_cell(bin);
        let mut chain_copy: Vec<EntryNode<K>> = Vec::new();
        let found = {
            let e = g.value(&self.entries);
            match e {
                Entry::Empty => None,
                Entry::Head(recs) => {
                    chain_copy = crate::entry::copy_chain(recs);
                    find_key(recs, &key)
                },
            }
        };
        proof {
            assert(g.value_spec(self.entries) == pre.entries.cur(bin as int));
            assert(chain_copy@ =~= pre.chain(i as int));
            pre.lemma_lookup(*key, hash, hfn);
        }
        match found {
            None => {
                proof {
                    assert(!pre.has_key(*key)) by {
                        if pre.has_key(*key) {
                            let j2 = choose|j2: int|
                                0 <= j2 < pre.chain(i as int).len() && (#[trigger] pre.chain(
                                    i as int,
                                )[j2]).key == *key;
                            assert(chain_copy@[j2].key == *key);
                        }
                    }
                }
                g.release(&mut self.entries);
                proof {
                    Self::lemma_same_content(pre, *self);
                    assert(self.as_map() =~= pre.as_map().remove(*key));
                }
                None
            },
            Some(j) => {
                let vc = chain_copy[j].val_cell;
                proof {
                    assert(pre.in_range(i as int, j as int) && pre.rec(i as int, j as int).key
                        == *key);
                    pre.lemma_at(i as int, j as int);
                    assert(pre.has_key(*key));
                    assert(pre.vals.alive(vc as int));
                    assert(pre.vals.cell(vc as int).keep_count == 0);
                }
                let mut new_chain = chain_copy;
                new_chain.remove(j);
                let new_entry = if new_chain.len() == 0 {
                    Entry::Empty
                } else {
                    Entry::Head(new_chain)
                };
                proof {
                    assert(new_entry.chain() =~= pre.chain(i as int).remove(j as int));
                }
                match self.entries.exchange_cell(bin, &g, new_entry) {
                    Ok(old_g) => {
                        let ghost t2 = *self;
                        proof {
                            assert(t2.entries.cur(bin as int).chain() == pre.chain(
                                i as int,
                            ).remove(j as int));
                            Self::lemma_chain_shrunk(pre, t2, i as int, j as int);
                            assert(g != old_g) by {
                                assert(g.node != old_g.node);
                            }
                        }
                        old_g.release(&mut self.entries);
                        let ghost t3 = *self;
                        proof {
                            Self::lemma_same_content(t2, t3);
                        }
                        g.release(&mut self.entries);
                        let ghost t4 = *self;
                        proof {
                            Self::lemma_same_content(t3, t4);
                            assert(t4.vals == pre.vals);
                            assert(t4.vals.alive(vc as int));
                        }
                        let gv = self.vals.read_cell(vc);
                        let ghost t5 = *self;
                        proof {
                            Self::lemma_same_content(t4, t5);
                            assert(t5.vals.alive(vc as int));
                            assert(t5.vals.cell(vc as int).keep_count == 0);
                            assert forall|i2: int, j2: int| #[trigger]
                                t5.in_range(i2, j2) implies t5.rec(i2, j2).val_cell as int
                                != vc as int by {
                                assert(t4.in_range(i2, j2) && t4.rec(i2, j2) == t5.rec(i2, j2));
                                assert(t2.in_range(i2, j2) && t2.rec(i2, j2) == t4.rec(i2, j2));
                                if t2.rec(i2, j2).val_cell as int == vc as int {
                                    let bj: int = if i2 == i as int && j2 >= j as int {
                                        j2 + 1
                                    } else {
                                        j2
                                    };
                                    assert(pre.in_range(i2, bj) && pre.rec(i2, bj) == t2.rec(
                                        i2,
                                        j2,
                                    )) by {
                                        if i2 != i as int {
                                            assert(t2.chain(i2) == pre.chain(i2));
                                        } else {
                                            assert(t2.chain(i2) == pre.chain(i2).remove(
                                                j as int,
                                            ));
                                        }
                                    }
                                    assert(i2 == i as int && bj == j as int);
                                }
                            }
                        }
                        self.vals.retire_cell(vc);
                        proof {
                            Self::lemma_val_retired(t5, *self, vc as int);
                            assert(self.as_map() =~= pre.as_map().remove(*key));
                            assert(gv.valid(self.vals) && gv.value_spec(self.vals)
                                == pre.as_map()[*key]);
                        }
                        Some(gv)
                    },
                    Err(_) => {
                        proof {
                            assert(false);
                        }
                        vstd::pervasive::unreached()
                    },
                }
            },
        }
    }
}

} // verus!
