use crate::domain::{
    lemma_cell_freed, lemma_cell_op, lemma_cell_op_alive, lemma_frame_alive, Domain,
};
use crate::heap_ptr::HeapPtr;
use crate::tracked_atomic::{all_vacant, lemma_after_register, lemma_after_release, vacate};
use crate::tracked_atomic::TrackedAtomic;
use vstd::prelude::*;

verus! {

/// A stable read handle: one unit of readership on one mutation node of one
/// cell, for one specific heap slot.  While a guard is live, the value it
/// was taken on stays readable, however often the cell is overwritten and
/// whether or not any `Keep` handle survives.
///
/// A guard belongs to the domain it was taken from; every operation on it
/// names that domain.
#[derive(PartialEq, Eq, Structural, Debug)]
pub struct Guard {
    /// The cell this readership is on.
    pub cell: usize,
    /// The mutation node that carries the registration.
    pub node: usize,
    /// The heap slot being protected.
    pub ptr: HeapPtr,
}

impl Guard {
    /// The guard is a live readership in `dom`: its cell exists and its node
    /// protects its slot.
    pub open spec fn valid<V>(self, dom: Domain<V>) -> bool {
        &&& dom.has_cell(self.cell as int)
        &&& dom.cell(self.cell as int).guard_ok(self)
    }

    /// The value this guard protects.
    pub open spec fn value_spec<V>(self, dom: Domain<V>) -> V {
        dom.cell(self.cell as int).value_at(self.ptr)
    }

    /// Dereferences the guard: a live guard always yields the value that was
    /// current when it was taken.
    pub fn value<'a, V>(&self, dom: &'a Domain<V>) -> (r: &'a V)
        requires
            dom.wf(),
            self.valid(*dom),
        ensures
            *r == self.value_spec(*dom),
    {
        proof {
            let ta = dom.cell(self.cell as int);
            assert(ta.occupied(self.node as int));
            assert(ta.filled(self.ptr));
        }
        match &dom.cells[self.cell] {
            Some(ta) => {
                match &ta.slots[self.ptr.idx] {
                    Some(v) => v,
                    None => vstd::pervasive::unreached(),
                }
            },
            None => vstd::pervasive::unreached(),
        }
    }

    /// A fresh readership on the cell's *current* value — which may be
    /// newer than the value this guard protects.
    pub fn read<V>(&self, dom: &mut Domain<V>) -> (g: Guard)
        requires
            old(dom).wf(),
            old(dom).alive(self.cell as int),
        ensures
            final(dom).wf(),
            g.valid(*final(dom)),
            g.cell == self.cell,
            g.value_spec(*final(dom)) == old(dom).cur(self.cell as int),
            forall|g2: Guard| g2.valid(*old(dom)) && g2.cell == self.cell ==> g2.node != g.node,
            Domain::frame_except(*old(dom), *final(dom), self.cell as int),
            Domain::guards_kept(*old(dom), *final(dom)),
            Domain::keeps_kept(*old(dom), *final(dom)),
            Domain::dead_monotone(*old(dom), *final(dom)),
            Domain::alive_kept(*old(dom), *final(dom)),
    {
        dom.read_cell(self.cell)
    }

    /// Installs `value` as the current value of this guard's cell.  The
    /// guard itself keeps protecting the value it was taken on.
    pub fn write<V>(&self, dom: &mut Domain<V>, value: V)
        requires
            old(dom).wf(),
            old(dom).alive(self.cell as int),
        ensures
            final(dom).wf(),
            final(dom).alive(self.cell as int),
            final(dom).cur(self.cell as int) == value,
            Domain::frame_except(*old(dom), *final(dom), self.cell as int),
            Domain::guards_kept(*old(dom), *final(dom)),
            Domain::keeps_kept(*old(dom), *final(dom)),
            Domain::dead_monotone(*old(dom), *final(dom)),
            forall|c2: int|
                #[trigger] old(dom).alive(c2) && c2 != self.cell as int ==> final(dom).alive(c2)
                    && final(dom).cur(c2) == old(dom).cur(c2),
    {
        dom.write_cell(self.cell, value)
    }

    /// Trades handles with `other`: each guard now owns the readership the
    /// other held.
    pub fn swap_guard(&mut self, other: &mut Guard)
        ensures
            *final(self) == *old(other),
            *final(other) == *old(self),
    {
        let t_cell = self.cell;
        let t_node = self.node;
        let t_ptr = self.ptr;
        self.cell = other.cell;
        self.node = other.node;
        self.ptr = other.ptr;
        other.cell = t_cell;
        other.node = t_node;
        other.ptr = t_ptr;
    }

    /// Re-points this guard at the cell's current value: takes a fresh
    /// readership and gives the old one up.
    pub fn reload<V>(&mut self, dom: &mut Domain<V>)
        requires
            old(dom).wf(),
            old(self).valid(*old(dom)),
            old(dom).alive(old(self).cell as int),
        ensures
            final(dom).wf(),
            final(self).valid(*final(dom)),
            final(self).cell == old(self).cell,
            final(self).value_spec(*final(dom)) == old(dom).cur(old(self).cell as int),
            Domain::guards_kept_except(*old(dom), *final(dom), *old(self)),
            Domain::keeps_kept(*old(dom), *final(dom)),
            Domain::dead_monotone(*old(dom), *final(dom)),
            Domain::alive_kept(*old(dom), *final(dom)),
    {
        let ghost pre = *dom;
        let mut fresh = dom.read_cell(self.cell);
        proof {
            assert(fresh.node != old(self).node);
        }
        self.swap_guard(&mut fresh);
        // `fresh` now carries the readership this guard held
        fresh.release(dom);
    }

    /// Takes one more readership on the very value this guard protects: the
    /// copy stays valid on its own, whatever happens to the original.
    pub fn duplicate<V>(&self, dom: &mut Domain<V>) -> (g: Guard)
        requires
            old(dom).wf(),
            self.valid(*old(dom)),
        ensures
            final(dom).wf(),
            g.valid(*final(dom)),
            g.cell == self.cell,
            g.ptr == self.ptr,
            g.value_spec(*final(dom)) == self.value_spec(*old(dom)),
            self.valid(*final(dom)),
            forall|g2: Guard| g2.valid(*old(dom)) && g2.cell == self.cell ==> g2.node != g.node,
            Domain::frame_except(*old(dom), *final(dom), self.cell as int),
            Domain::guards_kept(*old(dom), *final(dom)),
            Domain::keeps_kept(*old(dom), *final(dom)),
            Domain::dead_monotone(*old(dom), *final(dom)),
            Domain::alive_kept(*old(dom), *final(dom)),
    {
        let ghost pre = *dom;
        let c = self.cell;
        proof {
            assert(pre.cell(c as int).occupied(self.node as int));
            assert(pre.cell(c as int).filled(self.ptr));
        }
        let n = match &mut dom.cells[c] {
            Some(ta) => ta.register(self.ptr),
            None => vstd::pervasive::unreached(),
        };
        proof {
            let ci = c as int;
            lemma_after_register(pre.cell(ci), dom.cell(ci), n, self.ptr);
            assert(dom.cell(ci).occupied(n as int));
            lemma_cell_op(pre, *dom, ci);
            crate::domain::lemma_cell_op_guards(pre, *dom, ci);
            lemma_cell_op_alive(pre, *dom, ci);
            assert forall|g2: Guard| g2.valid(pre) && g2.cell == c implies g2.node != n by {
                assert(pre.cell(ci).guard_ok(g2));
            }
        }
        Guard { cell: c, node: n, ptr: self.ptr }
    }

    /// Gives the readership up.  If no other node protects the value, the
    /// value is reclaimed; if on top of that the cell was already dead, this
    /// was the last reference into the cell and the cell itself goes too.
    pub fn release<V>(self, dom: &mut Domain<V>)
        requires
            old(dom).wf(),
            self.valid(*old(dom)),
        ensures
            final(dom).wf(),
            Domain::frame_except(*old(dom), *final(dom), self.cell as int),
            Domain::guards_kept_except(*old(dom), *final(dom), self),
            Domain::keeps_kept(*old(dom), *final(dom)),
            Domain::dead_monotone(*old(dom), *final(dom)),
            Domain::alive_kept(*old(dom), *final(dom)),
            // the protected value goes exactly when this was its last
            // readership:
            final(dom).has_cell(self.cell as int) ==> (final(dom).cell(self.cell as int).filled(
                self.ptr,
            ) <==> (exists|m: int|
                m != self.node && old(dom).cell(self.cell as int).registers(m, self.ptr))),
            // the cell goes exactly when it was dead and this was its last
            // readership:
            (!final(dom).has_cell(self.cell as int)) <==> (old(dom).cell(self.cell as int).dead
                && (forall|m: int|
                0 <= m < old(dom).cell(self.cell as int).nodes@.len() && m != self.node ==> old(
                    dom,
                ).cell(self.cell as int).nodes@[m].value is None)),
    {
        let ghost pre = *dom;
        let c = self.cell;
        proof {
            assert(pre.cell(c as int).occupied(self.node as int));
            assert(pre.cell(c as int).filled(self.ptr));
        }
        let head_free = match &mut dom.cells[c] {
            Some(ta) => ta.unregister(self.node, self.ptr),
            None => vstd::pervasive::unreached(),
        };
        let ghost mid = *dom;
        if head_free {
            dom.cells[c] = None;
        }
        proof {
            let ci = c as int;
            lemma_after_release(pre.cell(ci), mid.cell(ci), self.node, self.ptr);
            let vac = vacate(pre.cell(ci).nodes@, self.node as int);
            assert(all_vacant(vac) <==> (forall|m: int|
                0 <= m < pre.cell(ci).nodes@.len() && m != self.node ==> pre.cell(
                    ci,
                ).nodes@[m].value is None)) by {
                if forall|m: int|
                    0 <= m < pre.cell(ci).nodes@.len() && m != self.node ==> pre.cell(
                        ci,
                    ).nodes@[m].value is None {
                    assert forall|j: int| 0 <= j < vac.len() implies vac[j].value is None by {
                        if j != self.node {
                            assert(pre.cell(ci).nodes@[j].value is None);
                        }
                    }
                }
                if all_vacant(vac) {
                    assert forall|m: int|
                        0 <= m < pre.cell(ci).nodes@.len() && m != self.node implies pre.cell(
                        ci,
                    ).nodes@[m].value is None by {
                        assert(vac[m].value is None);
                    }
                }
            }
            if head_free {
                assert(all_vacant(vac));
                assert forall|g2: Guard| #[trigger] g2.valid(pre) && g2 != self implies g2.valid(
                    *dom,
                ) && g2.value_spec(*dom) == g2.value_spec(pre) by {
                    if g2.cell as int == ci {
                        assert(pre.cell(ci).guard_ok(g2));
                        assert(g2.node == self.node);
                        assert(g2.ptr == self.ptr);
                        assert(g2 == self);
                    } else {
                        assert(dom.cells@[g2.cell as int] == pre.cells@[g2.cell as int]);
                    }
                }
                assert(dom.cells@ =~= mid.cells@.update(ci, None::<TrackedAtomic<V>>));
                lemma_cell_freed(pre, mid, *dom, ci);
                assert forall|k: crate::keep::Keep| #[trigger] k.valid(pre) implies k.valid(
                    *dom,
                ) by {
                    if k.cell as int == ci {
                        assert(pre.cell(ci).keeps@.contains(k.id@));
                        assert(pre.cell(ci).keeps@.len() > 0);
                        assert(pre.cell(ci).keep_count > 0);
                        assert(false);
                    } else {
                        assert(dom.cells@[k.cell as int] == pre.cells@[k.cell as int]);
                    }
                }
            } else {
                assert(!all_vacant(vac));
                lemma_cell_op(pre, *dom, ci);
                assert forall|g2: Guard| #[trigger] g2.valid(pre) && g2 != self implies g2.valid(
                    *dom,
                ) && g2.value_spec(*dom) == g2.value_spec(pre) by {
                    if g2.cell as int == ci {
                        assert(pre.cell(ci).guard_ok(g2));
                        if g2.node == self.node {
                            assert(g2.ptr == self.ptr);
                            assert(g2 == self);
                        }
                        assert(g2.node != self.node);
                    } else {
                        assert(dom.cells@[g2.cell as int] == pre.cells@[g2.cell as int]);
                    }
                }
            }
            lemma_frame_alive(pre, *dom, ci);
            if pre.alive(ci) {
                assert(!pre.cell(ci).dead);
                assert(!all_vacant(vac));
                assert(dom.alive(ci) && dom.cur(ci) == pre.cur(ci));
            }
        }
    }
}

} // verus!
