use crate::guard::Guard;
use crate::heap_ptr::HeapPtr;
use vstd::prelude::*;

verus! {

/// One mutation node: the account of one live reference to one historical
/// value of a cell.  A node is *occupied* while `value` names the slot it
/// protects, and *vacant* (`None`) otherwise.  Vacant nodes are reusable:
/// a later registration claims the first vacant node before the list grows.
#[derive(Clone, Copy, Debug)]
pub struct GuardNode {
    pub value: Option<HeapPtr>,
}

/// No node of `nodes` protects the slot `p`.
pub open spec fn no_node_holds(nodes: Seq<GuardNode>, p: HeapPtr) -> bool {
    forall|j: int| 0 <= j < nodes.len() ==> nodes[j].value != Some(p)
}

/// Every node of `nodes` is vacant: the domain these nodes form is dead.
pub open spec fn all_vacant(nodes: Seq<GuardNode>) -> bool {
    forall|j: int| 0 <= j < nodes.len() ==> nodes[j].value is None
}

/// `nodes` with node `n` made vacant.
pub open spec fn vacate(nodes: Seq<GuardNode>, n: int) -> Seq<GuardNode> {
    nodes.update(n, GuardNode { value: None })
}

/// An atomically-replaceable owning slot together with its mutation domain.
///
/// The cell owns a store of heap slots (`slots`; a reclaimed slot is `None`),
/// a list of mutation nodes (`nodes`; the head, `nodes[0]`, exists for the
/// cell's whole life), the pointer to the current value and the node that
/// registers it, a monotone `dead` flag raised when the keep side is torn
/// down, and the count of live `Keep` handles.  The ghost set `keeps` names
/// the live handles so the count can be stated exactly.
pub struct TrackedAtomic<V> {
    /// This cell's index within its `Domain`.
    pub index: usize,
    /// The values this cell has heap-allocated; a reclaimed slot is `None`.
    pub slots: Vec<Option<V>>,
    /// The mutation domain; `nodes[0]` is the head.
    pub nodes: Vec<GuardNode>,
    /// Pointer to the current value (meaningful while the cell is not dead).
    pub current: HeapPtr,
    /// The node that carries the registration of `current`.
    pub current_node: usize,
    /// Raised once the keep side is gone; never lowered again.
    pub dead: bool,
    /// Number of live `Keep` handles on this cell.
    pub keep_count: usize,
    /// The ids of the live `Keep` handles.
    pub keeps: Ghost<Set<nat>>,
}

impl<V> TrackedAtomic<V> {
    /// Node `n` exists and protects slot `p`.
    pub open spec fn registers(self, n: int, p: HeapPtr) -> bool {
        &&& 0 <= n < self.nodes@.len()
        &&& self.nodes@[n].value == Some(p)
    }

    /// Node `n` exists and is occupied.
    pub open spec fn occupied(self, n: int) -> bool {
        &&& 0 <= n < self.nodes@.len()
        &&& self.nodes@[n].value is Some
    }

    /// Some node protects slot `p`.
    pub open spec fn some_node_registers(self, p: HeapPtr) -> bool {
        exists|n: int| self.registers(n, p)
    }

    /// Slot `p` still holds a value.
    pub open spec fn filled(self, p: HeapPtr) -> bool {
        &&& p.idx < self.slots@.len()
        &&& self.slots@[p.idx as int] is Some
    }

    /// The value in slot `p`.
    pub open spec fn value_at(self, p: HeapPtr) -> V {
        self.slots@[p.idx as int].unwrap()
    }

    /// The cell's current value.
    pub open spec fn cur(self) -> V {
        self.value_at(self.current)
    }

    /// The triple `g` is a live readership on this cell: its node protects
    /// its slot, and — while the keep side lives — its node is not the one
    /// that carries the cell's own registration of the current value.
    pub open spec fn guard_ok(self, g: Guard) -> bool {
        &&& g.cell == self.index
        &&& self.registers(g.node as int, g.ptr)
        &&& self.dead || g.node != self.current_node
    }

    /// Well-formedness of one cell.
    pub open spec fn wf(self) -> bool {
        &&& self.nodes@.len() >= 1
        &&& self.keeps@.finite()
        &&& self.keep_count == self.keeps@.len()
        &&& self.dead ==> self.keep_count == 0
        &&& !self.dead ==> self.registers(self.current_node as int, self.current)
        &&& !self.dead ==> self.filled(self.current)
        &&& forall|n: int| #[trigger] self.occupied(n) ==> self.filled(self.nodes@[n].value.unwrap())
        &&& forall|p: HeapPtr| #[trigger] self.filled(p) ==> self.some_node_registers(p)
    }

    /// The keep-side bookkeeping is untouched.
    pub open spec fn same_handles(pre: Self, post: Self) -> bool {
        &&& post.index == pre.index
        &&& post.keep_count == pre.keep_count
        &&& post.keeps == pre.keeps
    }

    /// Every live readership of `pre` survives into `post` with its value.
    pub open spec fn guards_kept(pre: Self, post: Self) -> bool {
        forall|g: Guard| #[trigger]
            pre.guard_ok(g) ==> post.guard_ok(g) && post.filled(g.ptr) && post.value_at(g.ptr)
                == pre.value_at(g.ptr)
    }

    /// A fresh cell holding `value`, registered in its own domain's head
    /// node.  The cell starts with no keep handles.
    pub fn new(index: usize, value: V) -> (r: Self)
        ensures
            r.wf(),
            r.index == index,
            !r.dead,
            r.keep_count == 0,
            r.keeps@ == Set::<nat>::empty(),
            r.cur() == value,
            r.slots@ == seq![Some(value)],
            r.nodes@ == seq![GuardNode { value: Some(HeapPtr { idx: 0 }) }],
            r.current == (HeapPtr { idx: 0 }),
            r.current_node == 0,
            forall|n: int| r.occupied(n) ==> n == 0,
    {
        let p = HeapPtr { idx: 0 };
        let r = TrackedAtomic {
            index,
            slots: vec![Some(value)],
            nodes: vec![GuardNode { value: Some(p) }],
            current: p,
            current_node: 0,
            dead: false,
            keep_count: 0,
            keeps: Ghost(Set::empty()),
        };
        proof {
            assert(r.registers(0, p));
            assert forall|q: HeapPtr| #[trigger] r.filled(q) implies r.some_node_registers(q) by {
                assert(q.idx == 0);
                assert(q == p);
                assert(r.registers(0, q));
            }
        }
        r
    }

    /// Puts `value` into a fresh heap slot and returns its address.
    pub fn new_slot(&mut self, value: V) -> (p: HeapPtr)
        ensures
            p.idx == old(self).slots@.len(),
            final(self).slots@ == old(self).slots@.push(Some(value)),
            final(self).nodes == old(self).nodes,
            final(self).current == old(self).current,
            final(self).current_node == old(self).current_node,
            final(self).dead == old(self).dead,
            Self::same_handles(*old(self), *final(self)),
    {
        let i = self.slots.len();
        self.slots.push(Some(value));
        HeapPtr { idx: i }
    }

    /// Records one new live reference to the (filled) slot `ptr`: claims the
    /// first vacant mutation node, or appends a fresh one if every node is
    /// occupied.  Returns the claimed node.
    pub fn register(&mut self, ptr: HeapPtr) -> (n: usize)
        requires
            old(self).filled(ptr),
        ensures
            n < final(self).nodes@.len(),
            final(self).nodes@[n as int].value == Some(ptr),
            n < old(self).nodes@.len() ==> old(self).nodes@[n as int].value is None
                && final(self).nodes@ == old(self).nodes@.update(
                n as int,
                GuardNode { value: Some(ptr) },
            ),
            n >= old(self).nodes@.len() ==> n == old(self).nodes@.len() && final(self).nodes@
                == old(self).nodes@.push(GuardNode { value: Some(ptr) }),
            final(self).slots == old(self).slots,
            final(self).current == old(self).current,
            final(self).current_node == old(self).current_node,
            final(self).dead == old(self).dead,
            Self::same_handles(*old(self), *final(self)),
    {
        let mut i: usize = 0;
        loop
            invariant
                i <= self.nodes@.len(),
                forall|j: int| 0 <= j < i ==> self.nodes@[j].value is Some,
                *self == *old(self),
            decreases self.nodes@.len() - i,
        {
            if i == self.nodes.len() {
                self.nodes.push(GuardNode { value: Some(ptr) });
                proof {
                    assert(self.nodes@ == old(self).nodes@.push(GuardNode { value: Some(ptr) }));
                }
                return i;
            }
            if self.nodes[i].value.is_none() {
                self.nodes[i] = GuardNode { value: Some(ptr) };
                return i;
            }
            i = i + 1;
        }
    }

    /// Releases the readership that node `node` holds on slot `ptr`, then
    /// walks the domain once.  If no node protects `ptr` any more, the value
    /// in that slot is reclaimed.  If every node is vacant, the domain is
    /// dead: the non-head nodes are reclaimed and the `dead` flag is raised;
    /// if the flag was already up — the keep side is long gone — the caller
    /// must reclaim the whole cell, which the result reports.
    pub fn unregister(&mut self, node: usize, ptr: HeapPtr) -> (head_free: bool)
        requires
            old(self).registers(node as int, ptr),
            old(self).filled(ptr),
        ensures
            final(self).slots@ == if no_node_holds(vacate(old(self).nodes@, node as int), ptr) {
                old(self).slots@.update(ptr.idx as int, None)
            } else {
                old(self).slots@
            },
            final(self).nodes@ == if all_vacant(vacate(old(self).nodes@, node as int)) {
                seq![GuardNode { value: None }]
            } else {
                vacate(old(self).nodes@, node as int)
            },
            final(self).dead == (old(self).dead || all_vacant(
                vacate(old(self).nodes@, node as int),
            )),
            head_free == (old(self).dead && all_vacant(vacate(old(self).nodes@, node as int))),
            final(self).current == old(self).current,
            final(self).current_node == old(self).current_node,
            Self::same_handles(*old(self), *final(self)),
    {
        self.nodes[node] = GuardNode { value: None };
        let ghost vacated = self.nodes@;
        proof {
            assert(vacated =~= vacate(old(self).nodes@, node as int));
        }

        let mut mutation_over = true;
        let mut domain_dead = true;
        let mut i: usize = 0;
        while (mutation_over || domain_dead) && i < self.nodes.len()
            invariant
                i <= self.nodes@.len(),
                self.nodes@ == vacated,
                self.slots == old(self).slots,
                self.current == old(self).current,
                self.current_node == old(self).current_node,
                self.dead == old(self).dead,
                Self::same_handles(*old(self), *self),
                mutation_over <==> (forall|j: int| 0 <= j < i ==> self.nodes@[j].value != Some(
                    ptr,
                )),
                domain_dead <==> (forall|j: int| 0 <= j < i ==> self.nodes@[j].value is None),
            decreases self.nodes@.len() - i,
        {
            match self.nodes[i].value {
                Some(q) => {
                    domain_dead = false;
                    if q == ptr {
                        mutation_over = false;
                    }
                },
                None => {},
            }
            i = i + 1;
        }
        proof {
            assert(mutation_over <==> no_node_holds(vacated, ptr));
            assert(domain_dead <==> all_vacant(vacated));
        }

        if mutation_over {
            // The mutation is over: no reader is left on this value.
            self.slots[ptr.idx] = None;
        }

        if domain_dead {
            // The domain is dead: drop the non-head nodes, then settle who
            // reclaims the head.
            self.nodes.truncate(1);
            proof {
                assert(self.nodes@ =~= seq![GuardNode { value: None }]);
            }
            let was_dead = self.dead;
            self.dead = true;
            return was_dead;
        }
        false
    }

    /// Takes a new readership on the current value: loads the current
    /// pointer and registers it in the domain.  The returned guard stays
    /// valid — and keeps dereferencing to this very value — through any
    /// number of later writes.
    pub fn read(&mut self) -> (g: Guard)
        requires
            old(self).wf(),
            !old(self).dead,
        ensures
            final(self).wf(),
            !final(self).dead,
            g.cell == old(self).index,
            g.ptr == old(self).current,
            final(self).guard_ok(g),
            final(self).filled(g.ptr),
            final(self).value_at(g.ptr) == old(self).cur(),
            forall|g2: Guard| old(self).guard_ok(g2) ==> g2.node != g.node,
            Self::guards_kept(*old(self), *final(self)),
            final(self).slots == old(self).slots,
            final(self).current == old(self).current,
            final(self).current_node == old(self).current_node,
            final(self).dead == old(self).dead,
            Self::same_handles(*old(self), *final(self)),
            final(self).cur() == old(self).cur(),
    {
        let p = self.current;
        let n = self.register(p);
        let g = Guard { cell: self.index, node: n, ptr: p };
        proof {
            lemma_after_register(*old(self), *self, n, p);
            assert(old(self).occupied(old(self).current_node as int));
        }
        g
    }

    /// Installs `value` as the new current value.  New readers see `value`
    /// at once; the displaced value is reclaimed on the spot exactly when no
    /// guard was holding it, and otherwise lives on until its last guard
    /// drops.
    pub fn write(&mut self, value: V)
        requires
            old(self).wf(),
            !old(self).dead,
        ensures
            final(self).wf(),
            !final(self).dead,
            final(self).cur() == value,
            Self::guards_kept(*old(self), *final(self)),
            Self::same_handles(*old(self), *final(self)),
            final(self).filled(old(self).current) <==> (exists|n: int|
                n != old(self).current_node && old(self).registers(n, old(self).current)),
            forall|p: HeapPtr|
                p.idx < old(self).slots@.len() && p != old(self).current ==> (final(self).filled(p)
                    == old(self).filled(p)) && (old(self).filled(p) ==> final(self).value_at(p)
                    == old(self).value_at(p)),
    {
        let p = self.new_slot(value);
        let old_p = self.current;
        self.current = p;
        let n = self.register(p);
        let old_n = self.current_node;
        self.current_node = n;
        let ghost mid = *self;
        proof {
            assert(old(self).occupied(old(self).current_node as int));
            assert(self.nodes@[old_n as int].value == Some(old_p));
            assert(self.filled(old_p));
        }
        let _ = self.unregister(old_n, old_p);
        proof {
            lemma_after_write(*old(self), mid, *self, n, p, old_n, old_p);
        }
    }

    /// Like `write`, but hands the displaced value back as a guard instead
    /// of releasing it: the cell's own registration of the old value becomes
    /// the caller's readership.
    pub fn swap(&mut self, value: V) -> (g: Guard)
        requires
            old(self).wf(),
            !old(self).dead,
        ensures
            final(self).wf(),
            !final(self).dead,
            final(self).cur() == value,
            g.cell == old(self).index,
            g.ptr == old(self).current,
            g.node == old(self).current_node,
            final(self).guard_ok(g),
            final(self).filled(g.ptr),
            final(self).value_at(g.ptr) == old(self).cur(),
            forall|g2: Guard| old(self).guard_ok(g2) ==> g2.node != g.node,
            Self::guards_kept(*old(self), *final(self)),
            Self::same_handles(*old(self), *final(self)),
            forall|p: HeapPtr|
                p.idx < old(self).slots@.len() ==> final(self).filled(p) == old(self).filled(p) && (
                old(self).filled(p) ==> final(self).value_at(p) == old(self).value_at(p)),
    {
        let p = self.new_slot(value);
        let old_p = self.current;
        self.current = p;
        let n = self.register(p);
        let old_n = self.current_node;
        self.current_node = n;
        let g = Guard { cell: self.index, node: old_n, ptr: old_p };
        proof {
            assert(old(self).occupied(old(self).current_node as int));
            lemma_after_swap(*old(self), *self, n, p, old_n, old_p);
        }
        g
    }

    /// Replaces the current value with `value` only if the cell still holds
    /// the very pointer `expected` was taken on — identity, not equality, of
    /// heap values.  On success the displaced value comes back as `Ok`; on
    /// failure `value` is discarded on the spot, never having been exposed,
    /// and a fresh guard on the actual current value comes back as `Err`.
    pub fn exchange(&mut self, expected: &Guard, value: V) -> (r: Result<Guard, Guard>)
        requires
            old(self).wf(),
            !old(self).dead,
            old(self).guard_ok(*expected),
        ensures
            final(self).wf(),
            !final(self).dead,
            Self::guards_kept(*old(self), *final(self)),
            Self::same_handles(*old(self), *final(self)),
            r is Ok <==> old(self).current == expected.ptr,
            r matches Ok(g) ==> {
                &&& final(self).cur() == value
                &&& g.cell == old(self).index
                &&& g.ptr == old(self).current
                &&& g.node == old(self).current_node
                &&& final(self).guard_ok(g)
                &&& final(self).filled(g.ptr)
                &&& final(self).value_at(g.ptr) == old(self).cur()
                &&& forall|g2: Guard| old(self).guard_ok(g2) ==> g2.node != g.node
            },
            r matches Err(g) ==> {
                &&& final(self).cur() == old(self).cur()
                &&& final(self).current == old(self).current
                &&& final(self).current_node == old(self).current_node
                &&& final(self).slots == old(self).slots
                &&& g.cell == old(self).index
                &&& g.ptr == old(self).current
                &&& final(self).guard_ok(g)
                &&& final(self).filled(g.ptr)
                &&& final(self).value_at(g.ptr) == old(self).cur()
                &&& forall|g2: Guard| old(self).guard_ok(g2) ==> g2.node != g.node
            },
    {
        if self.current == expected.ptr {
            let p = self.new_slot(value);
            let old_p = self.current;
            self.current = p;
            let n = self.register(p);
            let old_n = self.current_node;
            self.current_node = n;
            let g = Guard { cell: self.index, node: old_n, ptr: old_p };
            proof {
                assert(old(self).occupied(old(self).current_node as int));
                lemma_after_swap(*old(self), *self, n, p, old_n, old_p);
            }
            Ok(g)
        } else {
            // `value` is dropped here: it was never exposed to any reader.
            let p2 = self.current;
            let n = self.register(p2);
            let g = Guard { cell: self.index, node: n, ptr: p2 };
            proof {
                lemma_after_register(*old(self), *self, n, p2);
                assert(old(self).occupied(old(self).current_node as int));
            }
            Err(g)
        }
    }

    /// Accounts one more live `Keep` handle (with the ghost id `id`).
    pub fn register_keep(&mut self, Ghost(id): Ghost<nat>)
        requires
            old(self).wf(),
            !old(self).dead,
            !old(self).keeps@.contains(id),
            old(self).keep_count < usize::MAX,
        ensures
            final(self).wf(),
            final(self).keeps@ == old(self).keeps@.insert(id),
            final(self).keep_count == old(self).keep_count + 1,
            final(self).index == old(self).index,
            final(self).slots == old(self).slots,
            final(self).nodes == old(self).nodes,
            final(self).current == old(self).current,
            final(self).current_node == old(self).current_node,
            final(self).dead == old(self).dead,
    {
        self.keep_count = self.keep_count + 1;
        self.keeps = Ghost(self.keeps@.insert(id));
        proof {
            lemma_same_structure(*old(self), *self);
        }
    }

    /// Accounts the drop of the `Keep` handle with ghost id `id`.  When the
    /// last handle goes, the cell shuts down; the result then reports
    /// whether the caller must reclaim the whole cell (no guards were left)
    /// or guards remain and the last of them will reclaim it.
    pub fn unregister_keep(&mut self, Ghost(id): Ghost<nat>) -> (head_free: bool)
        requires
            old(self).wf(),
            old(self).keeps@.contains(id),
        ensures
            final(self).wf(),
            final(self).keeps@ == old(self).keeps@.remove(id),
            final(self).keep_count == old(self).keep_count - 1,
            final(self).index == old(self).index,
            old(self).keep_count > 1 ==> !head_free && final(self).slots == old(self).slots
                && final(self).nodes == old(self).nodes && final(self).current == old(self).current
                && final(self).current_node == old(self).current_node && final(self).dead == old(self).dead,
            old(self).keep_count == 1 ==> {
                &&& final(self).dead
                &&& Self::guards_kept(*old(self), *final(self))
                &&& (head_free <==> (forall|n: int|
                    0 <= n < old(self).nodes@.len() && n != old(self).current_node
                        ==> old(self).nodes@[n].value is None))
                &&& (!head_free ==> (exists|n: int| final(self).occupied(n)))
                &&& (final(self).filled(old(self).current) <==> (exists|n: int|
                    n != old(self).current_node && old(self).registers(n, old(self).current)))
                &&& forall|p: HeapPtr|
                    p != old(self).current && p.idx < old(self).slots@.len() ==> final(self).filled(
                        p,
                    ) == old(self).filled(p) && (old(self).filled(p) ==> final(self).value_at(p)
                        == old(self).value_at(p))
            },
    {
        proof {
            assert(old(self).keeps@.len() >= 1) by {
                assert(old(self).keeps@.contains(id));
            }
            assert(!old(self).dead);
        }
        self.keep_count = self.keep_count - 1;
        self.keeps = Ghost(self.keeps@.remove(id));
        proof {
            lemma_same_structure(*old(self), *self);
        }
        if self.keep_count == 0 {
            let ghost midk = *self;
            let hf = self.shut_down();
            proof {
                assert(midk.nodes@ == old(self).nodes@);
                assert(midk.slots@ == old(self).slots@);
                assert forall|g2: Guard| #[trigger] old(self).guard_ok(g2) implies self.guard_ok(
                    g2,
                ) && self.filled(g2.ptr) && self.value_at(g2.ptr) == old(self).value_at(
                    g2.ptr,
                ) by {
                    assert(midk.guard_ok(g2));
                }
                assert((forall|n: int|
                    0 <= n < midk.nodes@.len() && n != midk.current_node ==> midk.nodes@[n].value
                        is None) <==> (forall|n: int|
                    0 <= n < old(self).nodes@.len() && n != old(self).current_node ==> old(
                        self,
                    ).nodes@[n].value is None));
                if exists|n: int|
                    n != midk.current_node && midk.registers(n, midk.current) {
                    let n = choose|n: int| n != midk.current_node && midk.registers(n, midk.current);
                    assert(old(self).registers(n, old(self).current));
                }
                if exists|n: int|
                    n != old(self).current_node && old(self).registers(n, old(self).current) {
                    let n = choose|n: int|
                        n != old(self).current_node && old(self).registers(n, old(self).current);
                    assert(midk.registers(n, midk.current));
                }
            }
            hf
        } else {
            false
        }
    }

    /// Tears the keep side of the cell down: releases the cell's own
    /// registration of the current value and raises the `dead` flag.  The
    /// result reports whether the cell itself must now be reclaimed (its
    /// domain is dead) or live guards remain to do it later.
    pub fn shut_down(&mut self) -> (head_free: bool)
        requires
            old(self).wf(),
            !old(self).dead,
            old(self).keep_count == 0,
        ensures
            final(self).wf(),
            final(self).dead,
            Self::same_handles(*old(self), *final(self)),
            Self::guards_kept(*old(self), *final(self)),
            head_free <==> (forall|n: int|
                0 <= n < old(self).nodes@.len() && n != old(self).current_node ==> old(self).nodes@[n].value is None),
            !head_free ==> (exists|n: int| final(self).occupied(n)),
            final(self).filled(old(self).current) <==> (exists|n: int|
                n != old(self).current_node && old(self).registers(n, old(self).current)),
            forall|p: HeapPtr|
                p != old(self).current && p.idx < old(self).slots@.len() ==> final(self).filled(p)
                    == old(self).filled(p) && (old(self).filled(p) ==> final(self).value_at(p)
                    == old(self).value_at(p)),
    {
        let cn = self.current_node;
        let cp = self.current;
        let hf = self.unregister(cn, cp);
        proof {
            lemma_after_shut_down(*old(self), *self, cn, cp);
        }
        let ghost mid = *self;
        if hf {
            return true;
        }
        if self.dead {
            proof {
                lemma_settle_dead(*old(self), mid, *self, cn, cp);
            }
            true
        } else {
            self.dead = true;
            proof {
                lemma_settle_dead(*old(self), mid, *self, cn, cp);
            }
            false
        }
    }
}

/// Two states that agree on everything but the keep bookkeeping support the
/// same readerships; the new bookkeeping only has to balance on its own.
pub(crate) proof fn lemma_same_structure<V>(pre: TrackedAtomic<V>, post: TrackedAtomic<V>)
    requires
        pre.wf(),
        post.index == pre.index,
        post.nodes == pre.nodes,
        post.slots == pre.slots,
        post.current == pre.current,
        post.current_node == pre.current_node,
        post.dead == pre.dead,
        post.keeps@.finite(),
        post.keep_count == post.keeps@.len(),
        post.dead ==> post.keep_count == 0,
    ensures
        post.wf(),
        TrackedAtomic::guards_kept(pre, post),
{
    assert forall|n: int| #[trigger] post.occupied(n) implies post.filled(
        post.nodes@[n].value.unwrap(),
    ) by {
        assert(pre.occupied(n));
    }
    assert forall|q: HeapPtr| #[trigger] post.filled(q) implies post.some_node_registers(q) by {
        assert(pre.filled(q));
        assert(pre.some_node_registers(q));
        let m = choose|m: int| pre.registers(m, q);
        assert(post.registers(m, q));
    }
    if !post.dead {
        assert(pre.registers(pre.current_node as int, pre.current));
    }
    assert forall|g2: Guard| #[trigger] pre.guard_ok(g2) implies post.guard_ok(g2) && post.filled(
        g2.ptr,
    ) && post.value_at(g2.ptr) == pre.value_at(g2.ptr) by {
        assert(pre.occupied(g2.node as int));
    }
}

/// After a registration of `p` on node `n`, the cell is still well formed,
/// every prior readership survives untouched, and `n` is distinct from every
/// node a prior readership sits on.
pub(crate) proof fn lemma_after_register<V>(
    pre: TrackedAtomic<V>,
    post: TrackedAtomic<V>,
    n: usize,
    p: HeapPtr,
)
    requires
        pre.wf(),
        pre.filled(p),
        n < post.nodes@.len(),
        post.nodes@[n as int].value == Some(p),
        n < pre.nodes@.len() ==> pre.nodes@[n as int].value is None && post.nodes@
            == pre.nodes@.update(n as int, GuardNode { value: Some(p) }),
        n >= pre.nodes@.len() ==> n == pre.nodes@.len() && post.nodes@ == pre.nodes@.push(
            GuardNode { value: Some(p) },
        ),
        post.slots == pre.slots,
        post.current == pre.current,
        post.current_node == pre.current_node,
        post.dead == pre.dead,
        TrackedAtomic::same_handles(pre, post),
    ensures
        post.wf(),
        TrackedAtomic::guards_kept(pre, post),
        forall|g2: Guard| pre.guard_ok(g2) ==> g2.node != n,
{
    assert forall|m: int| #[trigger] post.occupied(m) implies post.filled(
        post.nodes@[m].value.unwrap(),
    ) by {
        if m == n {
        } else {
            assert(post.nodes@[m] == pre.nodes@[m]);
            assert(pre.occupied(m));
        }
    }
    assert forall|q0: HeapPtr| #[trigger] post.filled(q0) implies post.some_node_registers(
        q0,
    ) by {
        assert(pre.filled(q0));
        assert(pre.some_node_registers(q0));
        let n0 = choose|n0: int| pre.registers(n0, q0);
        assert(pre.occupied(n0));
        assert(n0 != n);
        assert(post.registers(n0, q0));
    }
    assert forall|g2: Guard| #[trigger] pre.guard_ok(g2) implies post.guard_ok(g2) && post.filled(
        g2.ptr,
    ) && post.value_at(g2.ptr) == pre.value_at(g2.ptr) && g2.node != n by {
        assert(pre.occupied(g2.node as int));
        assert(g2.node != n);
        assert(post.nodes@[g2.node as int] == pre.nodes@[g2.node as int]);
    }
    if !pre.dead {
        assert(pre.occupied(pre.current_node as int));
        assert(post.nodes@[pre.current_node as int] == pre.nodes@[pre.current_node as int]);
    }
}

/// After swapping a fresh value in — allocate, point `current` at it,
/// register it on node `n` — the cell is well formed, the displaced value's
/// registration on `old_n` is a readership in good standing, and every prior
/// readership survives.
proof fn lemma_after_swap<V>(
    pre: TrackedAtomic<V>,
    post: TrackedAtomic<V>,
    n: usize,
    p: HeapPtr,
    old_n: usize,
    old_p: HeapPtr,
)
    requires
        pre.wf(),
        !pre.dead,
        old_n == pre.current_node,
        old_p == pre.current,
        p.idx == pre.slots@.len(),
        post.slots@.len() == pre.slots@.len() + 1,
        forall|i: int| 0 <= i < pre.slots@.len() ==> post.slots@[i] == pre.slots@[i],
        post.slots@[p.idx as int] is Some,
        post.current == p,
        post.current_node == n,
        n < post.nodes@.len(),
        post.nodes@[n as int].value == Some(p),
        n < pre.nodes@.len() ==> pre.nodes@[n as int].value is None && post.nodes@
            == pre.nodes@.update(n as int, GuardNode { value: Some(p) }),
        n >= pre.nodes@.len() ==> n == pre.nodes@.len() && post.nodes@ == pre.nodes@.push(
            GuardNode { value: Some(p) },
        ),
        post.dead == pre.dead,
        TrackedAtomic::same_handles(pre, post),
    ensures
        post.wf(),
        !post.dead,
        post.guard_ok(Guard { cell: pre.index, node: old_n, ptr: old_p }),
        post.filled(old_p),
        post.value_at(old_p) == pre.cur(),
        post.cur() == post.value_at(p),
        forall|g2: Guard| pre.guard_ok(g2) ==> g2.node != old_n && g2.node != n,
        TrackedAtomic::guards_kept(pre, post),
        forall|q: HeapPtr|
            q.idx < pre.slots@.len() ==> post.filled(q) == pre.filled(q) && (pre.filled(q)
                ==> post.value_at(q) == pre.value_at(q)),
{
    assert(pre.occupied(old_n as int));
    assert(n != old_n);
    assert(post.nodes@[old_n as int] == pre.nodes@[old_n as int]);
    assert forall|m: int| #[trigger] post.occupied(m) implies post.filled(
        post.nodes@[m].value.unwrap(),
    ) by {
        if m == n {
        } else {
            assert(post.nodes@[m] == pre.nodes@[m]);
            assert(pre.occupied(m));
            assert(pre.filled(pre.nodes@[m].value.unwrap()));
        }
    }
    assert forall|q0: HeapPtr| #[trigger] post.filled(q0) implies post.some_node_registers(
        q0,
    ) by {
        if q0 == p {
            assert(post.registers(n as int, q0));
        } else {
            assert(q0.idx != p.idx);
            assert(pre.filled(q0));
            assert(pre.some_node_registers(q0));
            let n0 = choose|n0: int| pre.registers(n0, q0);
            assert(pre.occupied(n0));
            assert(n0 != n);
            assert(post.registers(n0, q0));
        }
    }
    assert forall|g2: Guard| #[trigger] pre.guard_ok(g2) implies post.guard_ok(g2) && post.filled(
        g2.ptr,
    ) && post.value_at(g2.ptr) == pre.value_at(g2.ptr) && g2.node != old_n && g2.node != n by {
        assert(pre.occupied(g2.node as int));
        assert(g2.node != n);
        assert(post.nodes@[g2.node as int] == pre.nodes@[g2.node as int]);
        assert(pre.filled(g2.ptr));
    }
}

/// `write` = swap in a fresh value, then release the cell's registration of
/// the displaced one.  `mid` is the state between the two halves.
proof fn lemma_after_write<V>(
    pre: TrackedAtomic<V>,
    mid: TrackedAtomic<V>,
    post: TrackedAtomic<V>,
    n: usize,
    p: HeapPtr,
    old_n: usize,
    old_p: HeapPtr,
)
    requires
        pre.wf(),
        !pre.dead,
        old_n == pre.current_node,
        old_p == pre.current,
        p.idx == pre.slots@.len(),
        mid.slots@.len() == pre.slots@.len() + 1,
        forall|i: int| 0 <= i < pre.slots@.len() ==> mid.slots@[i] == pre.slots@[i],
        mid.slots@[p.idx as int] is Some,
        mid.current == p,
        mid.current_node == n,
        n < mid.nodes@.len(),
        mid.nodes@[n as int].value == Some(p),
        n < pre.nodes@.len() ==> pre.nodes@[n as int].value is None && mid.nodes@
            == pre.nodes@.update(n as int, GuardNode { value: Some(p) }),
        n >= pre.nodes@.len() ==> n == pre.nodes@.len() && mid.nodes@ == pre.nodes@.push(
            GuardNode { value: Some(p) },
        ),
        mid.dead == pre.dead,
        TrackedAtomic::same_handles(pre, mid),
        // what `unregister(old_n, old_p)` did to `mid`:
        post.slots@ == if no_node_holds(vacate(mid.nodes@, old_n as int), old_p) {
            mid.slots@.update(old_p.idx as int, None)
        } else {
            mid.slots@
        },
        post.nodes@ == if all_vacant(vacate(mid.nodes@, old_n as int)) {
            seq![GuardNode { value: None }]
        } else {
            vacate(mid.nodes@, old_n as int)
        },
        post.dead == (mid.dead || all_vacant(vacate(mid.nodes@, old_n as int))),
        post.current == mid.current,
        post.current_node == mid.current_node,
        TrackedAtomic::same_handles(mid, post),
    ensures
        post.wf(),
        !post.dead,
        post.cur() == post.value_at(p),
        TrackedAtomic::guards_kept(pre, post),
        post.filled(old_p) <==> (exists|m: int| m != old_n && pre.registers(m, old_p)),
        forall|q: HeapPtr|
            q.idx < pre.slots@.len() && q != old_p ==> post.filled(q) == pre.filled(q) && (
            pre.filled(q) ==> post.value_at(q) == pre.value_at(q)),
{
    lemma_after_swap(pre, mid, n, p, old_n, old_p);
    let vac = vacate(mid.nodes@, old_n as int);
    assert(pre.occupied(old_n as int));
    assert(n != old_n);
    assert(vac[n as int].value == Some(p));
    assert(!all_vacant(vac));
    assert(post.nodes@ == vac);
    assert(old_p.idx < pre.slots@.len());
    assert(p != old_p);
    // The displaced value goes exactly when no reader held it.
    assert(post.filled(old_p) <==> !no_node_holds(vac, old_p));
    assert forall|m: int| m != old_n && pre.registers(m, old_p) implies !no_node_holds(
        vac,
        old_p,
    ) by {
        assert(pre.occupied(m));
        assert(m != n);
        assert(vac[m].value == Some(old_p));
    }
    if !no_node_holds(vac, old_p) {
        let m = choose|m: int| 0 <= m < vac.len() && vac[m].value == Some(old_p);
        assert(m != old_n);
        assert(m != n);
        assert(m < pre.nodes@.len() || vac[m] == GuardNode { value: Some(p) });
        assert(pre.registers(m, old_p));
    }
    // Well-formedness of the final state.
    assert forall|m: int| #[trigger] post.occupied(m) implies post.filled(
        post.nodes@[m].value.unwrap(),
    ) by {
        assert(m != old_n);
        assert(mid.occupied(m));
        assert(mid.filled(mid.nodes@[m].value.unwrap()));
        let q = mid.nodes@[m].value.unwrap();
        if q == old_p {
            assert(vac[m].value == Some(old_p));
            assert(!no_node_holds(vac, old_p));
        } else {
            assert(q.idx != old_p.idx);
        }
    }
    assert forall|q: HeapPtr| #[trigger] post.filled(q) implies post.some_node_registers(q) by {
        if q == old_p {
            assert(!no_node_holds(vac, old_p));
            let m = choose|m: int| 0 <= m < vac.len() && vac[m].value == Some(old_p);
            assert(post.registers(m, q));
        } else {
            assert(q.idx != old_p.idx);
            assert(mid.filled(q));
            assert(mid.some_node_registers(q));
            let m = choose|m: int| mid.registers(m, q);
            assert(m != old_n);
            assert(post.registers(m, q));
        }
    }
    assert(post.registers(post.current_node as int, post.current));
    assert(post.filled(p));
    assert forall|g2: Guard| #[trigger] pre.guard_ok(g2) implies post.guard_ok(g2) && post.filled(
        g2.ptr,
    ) && post.value_at(g2.ptr) == pre.value_at(g2.ptr) by {
        assert(mid.guard_ok(g2) && mid.filled(g2.ptr) && mid.value_at(g2.ptr) == pre.value_at(
            g2.ptr,
        ));
        assert(g2.node != old_n && g2.node != n);
        assert(post.nodes@[g2.node as int] == mid.nodes@[g2.node as int]);
        if g2.ptr == old_p {
            assert(vac[g2.node as int].value == Some(old_p));
            assert(!no_node_holds(vac, old_p));
        } else {
            assert(g2.ptr.idx != old_p.idx);
        }
    }
}

/// After a guard's readership on (`node`, `ptr`) is released — `node` not
/// being the cell's own registration of the current value — either the
/// domain survives in good shape, or it died, in which case this was the
/// last readership of a cell whose keep side was already gone.
pub(crate) proof fn lemma_after_release<V>(
    pre: TrackedAtomic<V>,
    post: TrackedAtomic<V>,
    node: usize,
    ptr: HeapPtr,
)
    requires
        pre.wf(),
        pre.registers(node as int, ptr),
        pre.dead || node != pre.current_node,
        post.slots@ == if no_node_holds(vacate(pre.nodes@, node as int), ptr) {
            pre.slots@.update(ptr.idx as int, None)
        } else {
            pre.slots@
        },
        post.nodes@ == if all_vacant(vacate(pre.nodes@, node as int)) {
            seq![GuardNode { value: None }]
        } else {
            vacate(pre.nodes@, node as int)
        },
        post.dead == (pre.dead || all_vacant(vacate(pre.nodes@, node as int))),
        post.current == pre.current,
        post.current_node == pre.current_node,
        TrackedAtomic::same_handles(pre, post),
    ensures
        all_vacant(vacate(pre.nodes@, node as int)) ==> pre.dead && (forall|g2: Guard|
            pre.guard_ok(g2) ==> g2.node == node),
        !all_vacant(vacate(pre.nodes@, node as int)) ==> {
            &&& post.wf()
            &&& post.dead == pre.dead
            &&& (exists|n: int| post.occupied(n))
            &&& (forall|g2: Guard| #[trigger]
                pre.guard_ok(g2) && g2.node != node ==> post.guard_ok(g2) && post.filled(g2.ptr)
                    && post.value_at(g2.ptr) == pre.value_at(g2.ptr))
            &&& (post.filled(ptr) <==> (exists|m: int| m != node && pre.registers(m, ptr)))
            &&& (!pre.dead ==> !post.dead && post.cur() == pre.cur() && post.filled(post.current))
        },
{
    let vac = vacate(pre.nodes@, node as int);
    assert(pre.occupied(node as int));
    assert(pre.filled(ptr));
    if all_vacant(vac) {
        // Only the released node was occupied; in particular the cell's own
        // registration of the current value was gone, so the keep side was.
        if !pre.dead {
            assert(pre.registers(pre.current_node as int, pre.current));
            assert(vac[pre.current_node as int].value is Some);
            assert(false);
        }
        assert forall|g2: Guard| pre.guard_ok(g2) implies g2.node == node by {
            if g2.node != node {
                assert(vac[g2.node as int].value is Some);
            }
        }
    } else {
        assert(post.nodes@ == vac);
        assert(post.dead == pre.dead);
        let w = choose|j: int| 0 <= j < vac.len() && !(vac[j].value is None);
        assert(post.occupied(w));
        assert(no_node_holds(vac, ptr) <==> !(exists|m: int| m != node && pre.registers(m, ptr)))
            by {
            if exists|m: int| m != node && pre.registers(m, ptr) {
                let m = choose|m: int| m != node && pre.registers(m, ptr);
                assert(vac[m].value == Some(ptr));
            }
            if !no_node_holds(vac, ptr) {
                let m = choose|m: int| 0 <= m < vac.len() && vac[m].value == Some(ptr);
                assert(m != node);
                assert(pre.registers(m, ptr));
            }
        }
        assert forall|m: int| #[trigger] post.occupied(m) implies post.filled(
            post.nodes@[m].value.unwrap(),
        ) by {
            assert(m != node);
            assert(pre.occupied(m));
            let q = pre.nodes@[m].value.unwrap();
            assert(pre.filled(q));
            if q == ptr {
                assert(vac[m].value == Some(ptr));
                assert(!no_node_holds(vac, ptr));
            } else {
                assert(q.idx != ptr.idx);
            }
        }
        assert forall|q: HeapPtr| #[trigger] post.filled(q) implies post.some_node_registers(
            q,
        ) by {
            if q == ptr {
                assert(!no_node_holds(vac, ptr));
                let m = choose|m: int| 0 <= m < vac.len() && vac[m].value == Some(ptr);
                assert(post.registers(m, q));
            } else {
                assert(q.idx != ptr.idx);
                assert(pre.filled(q));
                assert(pre.some_node_registers(q));
                let m = choose|m: int| pre.registers(m, q);
                assert(m != node);
                assert(post.registers(m, q));
            }
        }
        assert forall|g2: Guard| #[trigger] pre.guard_ok(g2) && g2.node != node implies
            post.guard_ok(g2) && post.filled(g2.ptr) && post.value_at(g2.ptr) == pre.value_at(
            g2.ptr,
        ) by {
            assert(pre.occupied(g2.node as int));
            assert(vac[g2.node as int] == pre.nodes@[g2.node as int]);
            if g2.ptr == ptr {
                assert(vac[g2.node as int].value == Some(ptr));
                assert(!no_node_holds(vac, ptr));
            } else {
                assert(g2.ptr.idx != ptr.idx);
            }
        }
        if !pre.dead {
            assert(pre.registers(pre.current_node as int, pre.current));
            assert(pre.current_node != node);
            assert(vac[pre.current_node as int].value == Some(pre.current));
            assert(!no_node_holds(vac, pre.current) || pre.current == ptr);
            if pre.current == ptr {
                assert(vac[pre.current_node as int].value == Some(ptr));
                assert(!no_node_holds(vac, ptr));
            }
            assert(post.filled(post.current));
            assert(post.registers(post.current_node as int, post.current));
        }
    }
}

/// Once the `dead` flag is settled after a shut-down, the cell is well
/// formed again and every readership survived.
proof fn lemma_settle_dead<V>(
    pre: TrackedAtomic<V>,
    mid: TrackedAtomic<V>,
    post: TrackedAtomic<V>,
    cn: usize,
    cp: HeapPtr,
)
    requires
        pre.wf(),
        !pre.dead,
        pre.keep_count == 0,
        cn == pre.current_node,
        cp == pre.current,
        mid.nodes@.len() >= 1,
        forall|m: int| #[trigger] mid.occupied(m) ==> mid.filled(mid.nodes@[m].value.unwrap()),
        forall|q: HeapPtr| #[trigger] mid.filled(q) ==> mid.some_node_registers(q),
        forall|g2: Guard| #[trigger]
            pre.guard_ok(g2) ==> mid.registers(g2.node as int, g2.ptr) && mid.filled(g2.ptr)
                && mid.value_at(g2.ptr) == pre.value_at(g2.ptr),
        !mid.dead ==> (exists|m: int| mid.occupied(m)),
        TrackedAtomic::same_handles(pre, mid),
        post.nodes == mid.nodes,
        post.slots == mid.slots,
        post.current == mid.current,
        post.current_node == mid.current_node,
        TrackedAtomic::same_handles(mid, post),
        post.dead,
    ensures
        post.wf(),
        TrackedAtomic::guards_kept(pre, post),
        !mid.dead ==> (exists|n: int| post.occupied(n)),
{
    assert forall|n: int| #[trigger] post.occupied(n) implies post.filled(
        post.nodes@[n].value.unwrap(),
    ) by {
        assert(mid.occupied(n));
    }
    assert forall|q: HeapPtr| #[trigger] post.filled(q) implies post.some_node_registers(q) by {
        assert(mid.filled(q));
        assert(mid.some_node_registers(q));
        let m = choose|m: int| mid.registers(m, q);
        assert(post.registers(m, q));
    }
    assert forall|g2: Guard| #[trigger] pre.guard_ok(g2) implies post.guard_ok(g2) && post.filled(
        g2.ptr,
    ) && post.value_at(g2.ptr) == pre.value_at(g2.ptr) by {
        assert(mid.registers(g2.node as int, g2.ptr));
        assert(mid.filled(g2.ptr));
    }
    if !mid.dead {
        let m = choose|m: int| mid.occupied(m);
        assert(post.occupied(m));
    }
}

/// Shutting the keep side down = release the cell's registration of the
/// current value; `mid` is the state right after that release, before the
/// caller settles the `dead` flag.
proof fn lemma_after_shut_down<V>(pre: TrackedAtomic<V>, mid: TrackedAtomic<V>, cn: usize, cp: HeapPtr)
    requires
        pre.wf(),
        !pre.dead,
        pre.keep_count == 0,
        cn == pre.current_node,
        cp == pre.current,
        mid.slots@ == if no_node_holds(vacate(pre.nodes@, cn as int), cp) {
            pre.slots@.update(cp.idx as int, None)
        } else {
            pre.slots@
        },
        mid.nodes@ == if all_vacant(vacate(pre.nodes@, cn as int)) {
            seq![GuardNode { value: None }]
        } else {
            vacate(pre.nodes@, cn as int)
        },
        mid.dead == (pre.dead || all_vacant(vacate(pre.nodes@, cn as int))),
        mid.current == pre.current,
        mid.current_node == pre.current_node,
        TrackedAtomic::same_handles(pre, mid),
    ensures
        mid.nodes@.len() >= 1,
        forall|m: int| #[trigger] mid.occupied(m) ==> mid.filled(mid.nodes@[m].value.unwrap()),
        forall|q: HeapPtr| #[trigger] mid.filled(q) ==> mid.some_node_registers(q),
        forall|g2: Guard| #[trigger]
            pre.guard_ok(g2) ==> mid.registers(g2.node as int, g2.ptr) && g2.node
                != mid.current_node && mid.filled(g2.ptr) && mid.value_at(g2.ptr) == pre.value_at(
                g2.ptr,
            ),
        mid.dead <==> (forall|m: int|
            0 <= m < pre.nodes@.len() && m != cn ==> pre.nodes@[m].value is None),
        !mid.dead ==> (exists|m: int| mid.occupied(m)),
        mid.filled(cp) <==> (exists|m: int| m != cn && pre.registers(m, cp)),
        forall|q: HeapPtr|
            q != cp && q.idx < pre.slots@.len() ==> mid.filled(q) == pre.filled(q) && (pre.filled(
                q,
            ) ==> mid.value_at(q) == pre.value_at(q)),
{
    let vac = vacate(pre.nodes@, cn as int);
    assert(pre.occupied(cn as int));
    // The two walk verdicts, restated over the original node list.
    assert(all_vacant(vac) <==> (forall|m: int|
        0 <= m < pre.nodes@.len() && m != cn ==> pre.nodes@[m].value is None)) by {
        if forall|m: int| 0 <= m < pre.nodes@.len() && m != cn ==> pre.nodes@[m].value is None {
            assert forall|j: int| 0 <= j < vac.len() implies vac[j].value is None by {
                if j != cn {
                    assert(pre.nodes@[j].value is None);
                }
            }
        }
        if all_vacant(vac) {
            assert forall|m: int|
                0 <= m < pre.nodes@.len() && m != cn implies pre.nodes@[m].value is None by {
                assert(vac[m].value is None);
            }
        }
    }
    assert(no_node_holds(vac, cp) <==> !(exists|m: int| m != cn && pre.registers(m, cp))) by {
        if exists|m: int| m != cn && pre.registers(m, cp) {
            let m = choose|m: int| m != cn && pre.registers(m, cp);
            assert(vac[m].value == Some(cp));
        }
        if !no_node_holds(vac, cp) {
            let m = choose|m: int| 0 <= m < vac.len() && vac[m].value == Some(cp);
            assert(m != cn);
            assert(pre.registers(m, cp));
        }
    }
    if all_vacant(vac) {
        // The domain died with the keep side: nothing is left registered,
        // so nothing is left allocated either.
        assert(no_node_holds(vac, cp));
        assert forall|q: HeapPtr| #[trigger] mid.filled(q) implies mid.some_node_registers(q) by {
            assert(q.idx != cp.idx);
            assert(pre.filled(q));
            assert(pre.some_node_registers(q));
            let m = choose|m: int| pre.registers(m, q);
            if m == cn {
                assert(pre.nodes@[cn as int].value == Some(cp));
                assert(q == cp);
                assert(false);
            } else {
                assert(vac[m].value == Some(q));
                assert(false);
            }
        }
        assert forall|g2: Guard| #[trigger] pre.guard_ok(g2) implies mid.registers(
            g2.node as int,
            g2.ptr,
        ) && g2.node != mid.current_node && mid.filled(g2.ptr) && mid.value_at(g2.ptr)
            == pre.value_at(g2.ptr) by {
            assert(pre.occupied(g2.node as int));
            assert(g2.node != cn);
            assert(vac[g2.node as int].value is Some);
            assert(false);
        }
    } else {
        assert(mid.nodes@ == vac);
        let w = choose|j: int| 0 <= j < vac.len() && !(vac[j].value is None);
        assert(mid.occupied(w));
        assert forall|m: int| #[trigger] mid.occupied(m) implies mid.filled(
            mid.nodes@[m].value.unwrap(),
        ) by {
            assert(m != cn);
            assert(pre.occupied(m));
            let q = pre.nodes@[m].value.unwrap();
            assert(pre.filled(q));
            if q == cp {
                assert(vac[m].value == Some(cp));
                assert(!no_node_holds(vac, cp));
            } else {
                assert(q.idx != cp.idx);
            }
        }
        assert forall|q: HeapPtr| #[trigger] mid.filled(q) implies mid.some_node_registers(q) by {
            if q == cp {
                assert(!no_node_holds(vac, cp));
                let m = choose|m: int| 0 <= m < vac.len() && vac[m].value == Some(cp);
                assert(mid.registers(m, q));
            } else {
                assert(q.idx != cp.idx);
                assert(pre.filled(q));
                assert(pre.some_node_registers(q));
                let m = choose|m: int| pre.registers(m, q);
                if m == cn {
                    assert(pre.nodes@[cn as int].value == Some(cp));
                }
                assert(m != cn);
                assert(mid.registers(m, q));
            }
        }
        assert forall|g2: Guard| #[trigger] pre.guard_ok(g2) implies mid.registers(
            g2.node as int,
            g2.ptr,
        ) && g2.node != mid.current_node && mid.filled(g2.ptr) && mid.value_at(g2.ptr)
            == pre.value_at(g2.ptr) by {
            assert(pre.occupied(g2.node as int));
            assert(g2.node != cn);
            assert(vac[g2.node as int] == pre.nodes@[g2.node as int]);
            if g2.ptr == cp {
                assert(vac[g2.node as int].value == Some(cp));
                assert(!no_node_holds(vac, cp));
            } else {
                assert(g2.ptr.idx != cp.idx);
            }
        }
    }
}

} // verus!
