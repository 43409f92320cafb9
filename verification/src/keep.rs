use crate::domain::{
    lemma_cell_freed, lemma_cell_op_core, lemma_cell_op_guards, lemma_frame_alive, lemma_grow,
    lemma_keeps_insert, Domain,
};
use crate::guard::Guard;
use crate::tracked_atomic::TrackedAtomic;
use vstd::prelude::*;

verus! {

/// A strong handle on one cell: while any keep is live, the cell's current
/// value stays replaceable.  Keeps are duplicated and released through the
/// domain, so the cell's keep count follows the live handles exactly.
pub struct Keep {
    /// The cell this handle names.
    pub cell: usize,
    /// This handle's identity in the cell's ghost set of live keeps.
    pub id: Ghost<nat>,
}

/// A remembered cell name, taken by [`Keep::mark`] and spent by
/// [`Keep::exchange_with`].
#[derive(Clone, Copy, PartialEq, Eq, Structural, Debug)]
pub struct KeepMarker {
    pub cell: usize,
}

/// What [`Keep::swap_with`] does: the two handles trade the cells they
/// name — values do not move, and readerships on either cell are untouched.
pub open spec fn swap_rel<V>(
    pre: Domain<V>,
    post: Domain<V>,
    k1: Keep,
    k2: Keep,
    k1p: Keep,
    k2p: Keep,
) -> bool {
    &&& post.wf()
    &&& k1p.cell == k2.cell && k1p.id == k1.id
    &&& k2p.cell == k1.cell && k2p.id == k2.id
    &&& k1p.valid(post) && k2p.valid(post)
    &&& Domain::guards_kept(pre, post)
    &&& Domain::dead_monotone(pre, post)
    &&& post.cells@.len() == pre.cells@.len()
    &&& post.next_id == pre.next_id
    &&& forall|c2: int|
        0 <= c2 < pre.cells@.len() && c2 != k1.cell as int && c2 != k2.cell as int
            ==> post.cells@[c2] == pre.cells@[c2]
    &&& forall|c2: int| #[trigger]
        pre.alive(c2) ==> post.alive(c2) && post.cur(c2) == pre.cur(c2) && post.cell(
            c2,
        ).keep_count == pre.cell(c2).keep_count
    &&& forall|k3: Keep| #[trigger]
        k3.valid(pre) && k3 != k1 && k3 != k2 ==> k3.valid(post)
    &&& (k1.cell != k2.cell ==> post.cell(k1.cell as int).keeps@ == pre.cell(
        k1.cell as int,
    ).keeps@.remove(k1.id@).insert(k2.id@) && post.cell(k2.cell as int).keeps@ == pre.cell(
        k2.cell as int,
    ).keeps@.remove(k2.id@).insert(k1.id@))
    &&& post.has_cell(k1.cell as int) && post.has_cell(k2.cell as int)
    &&& cell_untouched(pre, post, k1.cell as int)
    &&& cell_untouched(pre, post, k2.cell as int)
    &&& (k1.cell == k2.cell ==> post == pre)
}

/// Cell `c` exists on both sides and everything but its keep set is the
/// same.
pub open spec fn cell_untouched<V>(pre: Domain<V>, post: Domain<V>, c: int) -> bool {
    &&& pre.has_cell(c)
    &&& post.has_cell(c)
    &&& post.cell(c).index == pre.cell(c).index
    &&& post.cell(c).slots == pre.cell(c).slots
    &&& post.cell(c).nodes == pre.cell(c).nodes
    &&& post.cell(c).current == pre.cell(c).current
    &&& post.cell(c).current_node == pre.cell(c).current_node
    &&& post.cell(c).dead == pre.cell(c).dead
    &&& post.cell(c).keep_count == pre.cell(c).keep_count
}

impl Keep {
    /// The handle is live in `dom`.
    pub open spec fn valid<V>(self, dom: Domain<V>) -> bool {
        &&& dom.has_cell(self.cell as int)
        &&& dom.cell(self.cell as int).keeps@.contains(self.id@)
    }

    /// A live handle always names a cell whose keep side is up.
    proof fn lemma_valid_alive<V>(self, dom: Domain<V>)
        requires
            dom.wf(),
            self.valid(dom),
        ensures
            dom.alive(self.cell as int),
            dom.cell(self.cell as int).keep_count > 0,
    {
        assert(dom.cell(self.cell as int).keeps@.contains(self.id@));
        assert(dom.cell(self.cell as int).keeps@.len() > 0);
    }

    /// Creates a cell holding `value` and the first keep on it.
    pub fn new<V>(dom: &mut Domain<V>, value: V) -> (k: Keep)
        requires
            old(dom).wf(),
        ensures
            final(dom).wf(),
            k.valid(*final(dom)),
            k.cell == old(dom).cells@.len(),
            !old(dom).has_cell(k.cell as int),
            final(dom).cells@.len() == old(dom).cells@.len() + 1,
            forall|c2: int|
                0 <= c2 < old(dom).cells@.len() ==> final(dom).cells@[c2] == old(dom).cells@[c2],
            final(dom).alive(k.cell as int),
            final(dom).cur(k.cell as int) == value,
            final(dom).cell(k.cell as int).keep_count == 1,
            Domain::guards_kept(*old(dom), *final(dom)),
            Domain::keeps_kept(*old(dom), *final(dom)),
            Domain::dead_monotone(*old(dom), *final(dom)),
            Domain::alive_kept(*old(dom), *final(dom)),
    {
        let c = dom.cells.len();
        let ghost id = dom.next_id@;
        let mut ta = TrackedAtomic::new(c, value);
        ta.register_keep(Ghost(id));
        dom.cells.push(Some(ta));
        dom.next_id = Ghost(id + 1);
        proof {
            lemma_grow(*old(dom), *dom, c as int);
            assert(dom.cell(c as int).keeps@.contains(id));
            assert(dom.cell(c as int).keeps@.len() == 1);
        }
        Keep { cell: c, id: Ghost(id) }
    }

    /// Duplicates the handle: the cell gains one more live keep.
    pub fn duplicate<V>(&self, dom: &mut Domain<V>) -> (k: Keep)
        requires
            old(dom).wf(),
            self.valid(*old(dom)),
            old(dom).cell(self.cell as int).keep_count < usize::MAX,
        ensures
            final(dom).wf(),
            k.valid(*final(dom)),
            self.valid(*final(dom)),
            k.cell == self.cell,
            final(dom).cells@.len() == old(dom).cells@.len(),
            forall|c2: int|
                0 <= c2 < old(dom).cells@.len() && c2 != self.cell as int ==> final(dom).cells@[c2] == old(dom).cells@[c2],
            final(dom).alive(self.cell as int),
            final(dom).cur(self.cell as int) == old(dom).cur(self.cell as int),
            final(dom).cell(self.cell as int).keep_count == old(dom).cell(
                self.cell as int,
            ).keep_count + 1,
            Domain::guards_kept(*old(dom), *final(dom)),
            Domain::keeps_kept(*old(dom), *final(dom)),
            Domain::dead_monotone(*old(dom), *final(dom)),
            forall|c2: int|
                #[trigger] old(dom).alive(c2) && c2 != self.cell as int ==> final(dom).alive(c2)
                    && final(dom).cur(c2) == old(dom).cur(c2),
    {
        let ghost pre = *dom;
        let c = self.cell;
        let ghost id = dom.next_id@;
        proof {
            self.lemma_valid_alive(pre);
            if pre.cell(c as int).keeps@.contains(id) {
                assert(id < pre.next_id@);
            }
        }
        match &mut dom.cells[c] {
            Some(ta) => ta.register_keep(Ghost(id)),
            None => vstd::pervasive::unreached(),
        }
        dom.next_id = Ghost(id + 1);
        proof {
            lemma_keeps_insert(pre, *dom, c as int, id);
        }
        Keep { cell: c, id: Ghost(id) }
    }

    /// Takes a readership on the cell's current value.
    pub fn read<V>(&self, dom: &mut Domain<V>) -> (g: Guard)
        requires
            old(dom).wf(),
            self.valid(*old(dom)),
        ensures
            final(dom).wf(),
            self.valid(*final(dom)),
            g.valid(*final(dom)),
            g.cell == self.cell,
            g.ptr == old(dom).cell(self.cell as int).current,
            g.value_spec(*final(dom)) == old(dom).cur(self.cell as int),
            forall|g2: Guard| g2.valid(*old(dom)) && g2.cell == self.cell ==> g2.node != g.node,
            Domain::frame_except(*old(dom), *final(dom), self.cell as int),
            Domain::guards_kept(*old(dom), *final(dom)),
            Domain::keeps_kept(*old(dom), *final(dom)),
            Domain::dead_monotone(*old(dom), *final(dom)),
            Domain::alive_kept(*old(dom), *final(dom)),
            final(dom).cur(self.cell as int) == old(dom).cur(self.cell as int),
            final(dom).cell(self.cell as int).current == old(dom).cell(self.cell as int).current,
    {
        proof {
            self.lemma_valid_alive(*old(dom));
        }
        dom.read_cell(self.cell)
    }

    /// Installs `value` as the cell's new current value.
    pub fn write<V>(&self, dom: &mut Domain<V>, value: V)
        requires
            old(dom).wf(),
            self.valid(*old(dom)),
        ensures
            final(dom).wf(),
            self.valid(*final(dom)),
            final(dom).alive(self.cell as int),
            final(dom).cur(self.cell as int) == value,
            Domain::frame_except(*old(dom), *final(dom), self.cell as int),
            Domain::guards_kept(*old(dom), *final(dom)),
            Domain::keeps_kept(*old(dom), *final(dom)),
            Domain::dead_monotone(*old(dom), *final(dom)),
            forall|c2: int|
                #[trigger] old(dom).alive(c2) && c2 != self.cell as int ==> final(dom).alive(c2)
                    && final(dom).cur(c2) == old(dom).cur(c2),
    {
        proof {
            self.lemma_valid_alive(*old(dom));
        }
        dom.write_cell(self.cell, value)
    }

    /// Installs `value` and hands the displaced value back as a guard.
    pub fn swap<V>(&self, dom: &mut Domain<V>, value: V) -> (g: Guard)
        requires
            old(dom).wf(),
            self.valid(*old(dom)),
        ensures
            final(dom).wf(),
            self.valid(*final(dom)),
            final(dom).alive(self.cell as int),
            final(dom).cur(self.cell as int) == value,
            g.valid(*final(dom)),
            g.cell == self.cell,
            g.ptr == old(dom).cell(self.cell as int).current,
            g.value_spec(*final(dom)) == old(dom).cur(self.cell as int),
            forall|g2: Guard| g2.valid(*old(dom)) && g2.cell == self.cell ==> g2.node != g.node,
            Domain::frame_except(*old(dom), *final(dom), self.cell as int),
            Domain::guards_kept(*old(dom), *final(dom)),
            Domain::keeps_kept(*old(dom), *final(dom)),
            Domain::dead_monotone(*old(dom), *final(dom)),
            forall|c2: int|
                #[trigger] old(dom).alive(c2) && c2 != self.cell as int ==> final(dom).alive(c2)
                    && final(dom).cur(c2) == old(dom).cur(c2),
    {
        proof {
            self.lemma_valid_alive(*old(dom));
        }
        dom.swap_cell(self.cell, value)
    }

    /// Replaces the current value with `value` only if the cell still holds
    /// the very pointer `current` was taken on.  `Ok` carries the displaced
    /// value, `Err` a fresh readership on the actual current value.
    pub fn exchange<V>(&self, dom: &mut Domain<V>, current: &Guard, value: V) -> (r: Result<
        Guard,
        Guard,
    >)
        requires
            old(dom).wf(),
            self.valid(*old(dom)),
            current.valid(*old(dom)),
            current.cell == self.cell,
        ensures
            final(dom).wf(),
            self.valid(*final(dom)),
            final(dom).alive(self.cell as int),
            Domain::frame_except(*old(dom), *final(dom), self.cell as int),
            Domain::guards_kept(*old(dom), *final(dom)),
            Domain::keeps_kept(*old(dom), *final(dom)),
            Domain::dead_monotone(*old(dom), *final(dom)),
            forall|c2: int|
                #[trigger] old(dom).alive(c2) && c2 != self.cell as int ==> final(dom).alive(c2)
                    && final(dom).cur(c2) == old(dom).cur(c2),
            r is Ok <==> old(dom).cell(self.cell as int).current == current.ptr,
            r matches Ok(g) ==> {
                &&& final(dom).cur(self.cell as int) == value
                &&& g.valid(*final(dom))
                &&& g.cell == self.cell
                &&& g.ptr == old(dom).cell(self.cell as int).current
                &&& g.value_spec(*final(dom)) == old(dom).cur(self.cell as int)
            },
            r matches Err(g) ==> {
                &&& final(dom).cur(self.cell as int) == old(dom).cur(self.cell as int)
                &&& final(dom).cell(self.cell as int).current == old(dom).cell(
                    self.cell as int,
                ).current
                &&& g.valid(*final(dom))
                &&& g.cell == self.cell
                &&& g.ptr == old(dom).cell(self.cell as int).current
                &&& g.value_spec(*final(dom)) == old(dom).cur(self.cell as int)
            },
    {
        proof {
            self.lemma_valid_alive(*old(dom));
        }
        dom.exchange_cell(self.cell, current, value)
    }

    /// Remembers which cell this handle names right now.
    pub fn mark(&self) -> (m: KeepMarker)
        ensures
            m.cell == self.cell,
    {
        KeepMarker { cell: self.cell }
    }

    /// The two handles trade the cells they name.  No value moves: guards
    /// taken through either handle keep reflecting the cell they were taken
    /// on.
    pub fn swap_with<V>(&mut self, other: &mut Keep, dom: &mut Domain<V>)
        requires
            old(dom).wf(),
            old(self).valid(*old(dom)),
            old(other).valid(*old(dom)),
        ensures
            swap_rel(*old(dom), *final(dom), *old(self), *old(other), *final(self), *final(other)),
    {
        if self.cell == other.cell {
            proof {
                assert(*dom == *old(dom));
            }
            return ;
        }
        let ghost pre = *dom;
        let a = self.cell;
        let b = other.cell;
        proof {
            old(self).lemma_valid_alive(pre);
            old(other).lemma_valid_alive(pre);
            assert(pre.cell(a as int).keeps@.contains(old(self).id@));
            assert(pre.cell(b as int).keeps@.contains(old(other).id@));
            // ids of distinct cells never collide
            assert(!pre.cell(a as int).keeps@.contains(old(other).id@));
            assert(!pre.cell(b as int).keeps@.contains(old(self).id@));
        }
        match &mut dom.cells[a] {
            Some(ta) => {
                ta.keeps = Ghost(ta.keeps@.remove(self.id@).insert(other.id@));
            },
            None => vstd::pervasive::unreached(),
        }
        match &mut dom.cells[b] {
            Some(ta) => {
                ta.keeps = Ghost(ta.keeps@.remove(other.id@).insert(self.id@));
            },
            None => vstd::pervasive::unreached(),
        }
        let tmp = self.cell;
        self.cell = other.cell;
        other.cell = tmp;
        proof {
            lemma_relabel(pre, *dom, a as int, b as int, old(self).id@, old(other).id@);
        }
    }

    /// Trades cells with `other` only if this handle still names the cell
    /// remembered in `current`; otherwise reports the cell it does name.
    pub fn exchange_with<V>(&mut self, current: KeepMarker, other: &mut Keep, dom: &mut Domain<
        V,
    >) -> (r: Result<(), KeepMarker>)
        requires
            old(dom).wf(),
            old(self).valid(*old(dom)),
            old(other).valid(*old(dom)),
        ensures
            r is Ok <==> current.cell == old(self).cell,
            r is Ok ==> swap_rel(
                *old(dom),
                *final(dom),
                *old(self),
                *old(other),
                *final(self),
                *final(other),
            ),
            r matches Err(m) ==> *final(dom) == *old(dom) && *final(self) == *old(self) && *final(other) == *old(other) && m.cell == old(self).cell,
    {
        if self.cell == current.cell {
            self.swap_with(other, dom);
            Ok(())
        } else {
            Err(KeepMarker { cell: self.cell })
        }
    }

    /// Gives the handle up.  If it was the cell's last keep, the cell shuts
    /// down: with no readerships left it is reclaimed on the spot, otherwise
    /// the last guard to go will reclaim it.
    pub fn release<V>(self, dom: &mut Domain<V>)
        requires
            old(dom).wf(),
            self.valid(*old(dom)),
        ensures
            final(dom).wf(),
            Domain::frame_except(*old(dom), *final(dom), self.cell as int),
            Domain::guards_kept(*old(dom), *final(dom)),
            Domain::keeps_kept_except(*old(dom), *final(dom), self),
            Domain::dead_monotone(*old(dom), *final(dom)),
            old(dom).cell(self.cell as int).keep_count > 1 ==> final(dom).alive(self.cell as int)
                && final(dom).cur(self.cell as int) == old(dom).cur(self.cell as int) && final(dom).cell(self.cell as int).keep_count == old(dom).cell(self.cell as int).keep_count - 1,
            old(dom).cell(self.cell as int).keep_count == 1 ==> !final(dom).alive(
                self.cell as int,
            ),
            // reclaimed at once exactly when no readership outlives the keeps:
            old(dom).cell(self.cell as int).keep_count == 1 ==> (!final(dom).has_cell(
                self.cell as int,
            ) <==> (forall|n: int|
                0 <= n < old(dom).cell(self.cell as int).nodes@.len() && n != old(dom).cell(
                    self.cell as int,
                ).current_node ==> old(dom).cell(self.cell as int).nodes@[n].value is None)),
            forall|c2: int|
                #[trigger] old(dom).alive(c2) && c2 != self.cell as int ==> final(dom).alive(c2)
                    && final(dom).cur(c2) == old(dom).cur(c2),
    {
        let ghost pre = *dom;
        let c = self.cell;
        proof {
            self.lemma_valid_alive(pre);
        }
        let head_free = match &mut dom.cells[c] {
            Some(ta) => ta.unregister_keep(Ghost(self.id@)),
            None => vstd::pervasive::unreached(),
        };
        let ghost mid = *dom;
        if head_free {
            dom.cells[c] = None;
        }
        proof {
            let ci = c as int;
            if head_free {
                assert forall|g2: Guard| g2.valid(pre) implies g2.cell as int != ci by {
                    if g2.cell as int == ci {
                        assert(pre.cell(ci).guard_ok(g2));
                        assert(pre.cell(ci).occupied(g2.node as int));
                    }
                }
                assert(dom.cells@ =~= mid.cells@.update(ci, None::<TrackedAtomic<V>>));
                lemma_cell_freed(pre, mid, *dom, ci);
                assert forall|g2: Guard| #[trigger] g2.valid(pre) implies g2.valid(*dom)
                    && g2.value_spec(*dom) == g2.value_spec(pre) by {
                    assert(g2.cell as int != ci);
                    assert(dom.cells@[g2.cell as int] == pre.cells@[g2.cell as int]);
                }
            } else {
                if pre.cell(ci).keep_count == 1 {
                    assert(dom.cell(ci).dead);
                    lemma_cell_op_core(pre, *dom, ci);
                } else {
                    lemma_cell_op_core(pre, *dom, ci);
                    assert forall|g2: Guard| #[trigger]
                        pre.cell(ci).guard_ok(g2) implies dom.cell(ci).guard_ok(g2) && dom.cell(
                        ci,
                    ).filled(g2.ptr) && dom.cell(ci).value_at(g2.ptr) == pre.cell(ci).value_at(
                        g2.ptr,
                    ) by {
                        assert(pre.cell(ci).occupied(g2.node as int));
                    }
                }
                lemma_cell_op_guards(pre, *dom, ci);
            }
            lemma_frame_alive(pre, *dom, ci);
            // every other keep handle survives
            assert forall|k2: Keep| #[trigger] k2.valid(pre) && k2 != self implies k2.valid(
                *dom,
            ) by {
                if k2.cell as int == ci {
                    if k2.id@ == self.id@ {
                        assert(k2 == self);
                    } else {
                        assert(pre.cell(ci).keeps@.contains(k2.id@));
                        if pre.cell(ci).keep_count == 1 {
                            assert(pre.cell(ci).keeps@.remove(self.id@).contains(k2.id@));
                            assert(pre.cell(ci).keeps@.remove(self.id@).len() >= 1);
                        } else {
                            assert(dom.cell(ci).keeps@.contains(k2.id@));
                        }
                    }
                } else {
                    assert(dom.cells@[k2.cell as int] == pre.cells@[k2.cell as int]);
                }
            }
        }
    }

}

/// Lifts the relabelling done by `swap_with` — the keep ids `id_a` (on cell
/// `a`) and `id_b` (on cell `b`) trade places — to the whole domain.
proof fn lemma_relabel<V>(pre: Domain<V>, post: Domain<V>, a: int, b: int, id_a: nat, id_b: nat)
    requires
        pre.wf(),
        a != b,
        pre.has_cell(a),
        pre.has_cell(b),
        pre.cell(a).keeps@.contains(id_a),
        pre.cell(b).keeps@.contains(id_b),
        post.cells@.len() == pre.cells@.len(),
        forall|c2: int|
            0 <= c2 < pre.cells@.len() && c2 != a && c2 != b ==> post.cells@[c2] == pre.cells@[c2],
        post.next_id == pre.next_id,
        post.has_cell(a),
        post.has_cell(b),
        post.cell(a).keeps@ == pre.cell(a).keeps@.remove(id_a).insert(id_b),
        post.cell(b).keeps@ == pre.cell(b).keeps@.remove(id_b).insert(id_a),
        post.cell(a).index == pre.cell(a).index,
        post.cell(a).slots == pre.cell(a).slots,
        post.cell(a).nodes == pre.cell(a).nodes,
        post.cell(a).current == pre.cell(a).current,
        post.cell(a).current_node == pre.cell(a).current_node,
        post.cell(a).dead == pre.cell(a).dead,
        post.cell(a).keep_count == pre.cell(a).keep_count,
        post.cell(b).index == pre.cell(b).index,
        post.cell(b).slots == pre.cell(b).slots,
        post.cell(b).nodes == pre.cell(b).nodes,
        post.cell(b).current == pre.cell(b).current,
        post.cell(b).current_node == pre.cell(b).current_node,
        post.cell(b).dead == pre.cell(b).dead,
        post.cell(b).keep_count == pre.cell(b).keep_count,
    ensures
        post.wf(),
        Domain::guards_kept(pre, post),
        Domain::dead_monotone(pre, post),
        forall|c2: int|
            #[trigger] pre.alive(c2) ==> post.alive(c2) && post.cur(c2) == pre.cur(c2) && post.cell(
                c2,
            ).keep_count == pre.cell(c2).keep_count,
        forall|k3: Keep|
            #[trigger] k3.valid(pre) && k3.id@ != id_a && k3.id@ != id_b ==> k3.valid(post),
{
    assert(!pre.cell(a).keeps@.contains(id_b));
    assert(!pre.cell(b).keeps@.contains(id_a));
    assert(id_a != id_b);
    assert(pre.cell(a).keeps@.remove(id_a).insert(id_b).len() == pre.cell(a).keeps@.len());
    assert(pre.cell(b).keeps@.remove(id_b).insert(id_a).len() == pre.cell(b).keeps@.len());
    crate::tracked_atomic::lemma_same_structure(pre.cell(a), post.cell(a));
    crate::tracked_atomic::lemma_same_structure(pre.cell(b), post.cell(b));
    assert forall|c2: int| #[trigger] post.has_cell(c2) implies post.cell(c2).wf() && post.cell(
        c2,
    ).index == c2 by {
        assert(pre.has_cell(c2));
        assert(pre.cell(c2).wf());
        if c2 != a && c2 != b {
            assert(post.cells@[c2] == pre.cells@[c2]);
        }
    }
    assert forall|c2: int| #[trigger] post.has_cell(c2) implies !post.cell(c2).dead || (exists|
        n: int,
    | post.cell(c2).occupied(n)) by {
        assert(pre.has_cell(c2));
        if pre.cell(c2).dead {
            let n = choose|n: int| pre.cell(c2).occupied(n);
            assert(post.cell(c2).occupied(n));
        }
    }
    assert forall|c2: int, i: nat|
        post.has_cell(c2) && #[trigger] post.cell(c2).keeps@.contains(i) implies i
        < post.next_id@ by {
        assert(pre.has_cell(c2));
        if c2 == a {
            if i == id_b {
                assert(pre.cell(b).keeps@.contains(i));
            } else {
                assert(pre.cell(a).keeps@.contains(i));
            }
        } else if c2 == b {
            if i == id_a {
                assert(pre.cell(a).keeps@.contains(i));
            } else {
                assert(pre.cell(b).keeps@.contains(i));
            }
        } else {
            assert(pre.cell(c2).keeps@.contains(i));
        }
    }
    assert forall|c1: int, c2: int, i: nat|
        c1 != c2 && post.has_cell(c1) && post.has_cell(c2) && #[trigger] post.cell(
            c1,
        ).keeps@.contains(i) implies !(#[trigger] post.cell(c2).keeps@.contains(i)) by {
        assert(pre.has_cell(c1) && pre.has_cell(c2));
        // where did `i` live before the relabelling?
        let home1: int = if c1 == a && i == id_b {
            b
        } else if c1 == b && i == id_a {
            a
        } else {
            c1
        };
        assert(pre.cell(home1).keeps@.contains(i));
        if post.cell(c2).keeps@.contains(i) {
            let home2: int = if c2 == a && i == id_b {
                b
            } else if c2 == b && i == id_a {
                a
            } else {
                c2
            };
            assert(pre.cell(home2).keeps@.contains(i));
            if home1 != home2 {
                assert(!pre.cell(home2).keeps@.contains(i));
            } else {
                // the same pre-image can serve two distinct cells only
                // through a membership `post` does not actually have
                assert(false);
            }
        }
    }
    assert forall|g: Guard| #[trigger] g.valid(pre) implies g.valid(post) && g.value_spec(post)
        == g.value_spec(pre) by {
        if g.cell as int == a {
            assert(pre.cell(a).guard_ok(g));
        } else if g.cell as int == b {
            assert(pre.cell(b).guard_ok(g));
        } else {
            assert(post.cells@[g.cell as int] == pre.cells@[g.cell as int]);
        }
    }
    assert forall|c2: int| #[trigger] pre.alive(c2) implies post.alive(c2) && post.cur(c2)
        == pre.cur(c2) && post.cell(c2).keep_count == pre.cell(c2).keep_count by {
        if c2 != a && c2 != b {
            assert(post.cells@[c2] == pre.cells@[c2]);
        }
    }
    assert forall|k3: Keep|
        #[trigger] k3.valid(pre) && k3.id@ != id_a && k3.id@ != id_b implies k3.valid(post) by {
        if k3.cell as int == a {
            assert(post.cell(a).keeps@.contains(k3.id@));
        } else if k3.cell as int == b {
            assert(post.cell(b).keeps@.contains(k3.id@));
        } else {
            assert(post.cells@[k3.cell as int] == pre.cells@[k3.cell as int]);
        }
    }
}

} // verus!
