use crate::guard::Guard;
use crate::keep::Keep;
use crate::tracked_atomic::TrackedAtomic;
use vstd::prelude::*;

verus! {

/// The home of every cell of one element type.  The domain plays the part
/// of the heap: cells, their slots and their mutation nodes are all indices
/// into it, and a reclaimed cell leaves `None` behind.  Handles — [`Keep`]
/// and [`Guard`] — name cells of exactly one domain and are only meaningful
/// against it.
pub struct Domain<V> {
    /// The cells; a reclaimed cell is `None` and its index is never reused.
    pub cells: Vec<Option<TrackedAtomic<V>>>,
    /// Source of fresh ghost ids for `Keep` handles.
    pub next_id: Ghost<nat>,
}

impl<V> Domain<V> {
    /// Cell `c` exists (it has been created and not yet reclaimed).
    pub open spec fn has_cell(self, c: int) -> bool {
        &&& 0 <= c < self.cells@.len()
        &&& self.cells@[c] is Some
    }

    /// The state of cell `c`.
    pub open spec fn cell(self, c: int) -> TrackedAtomic<V> {
        self.cells@[c].unwrap()
    }

    /// Cell `c` exists and its keep side has not been torn down.
    pub open spec fn alive(self, c: int) -> bool {
        &&& self.has_cell(c)
        &&& !self.cell(c).dead
    }

    /// The current value of cell `c`.
    pub open spec fn cur(self, c: int) -> V {
        self.cell(c).cur()
    }

    /// Well-formedness of the whole domain.
    pub open spec fn wf(self) -> bool {
        &&& forall|c: int|
            #[trigger] self.has_cell(c) ==> self.cell(c).wf() && self.cell(c).index == c
        &&& forall|c: int|
            #[trigger] self.has_cell(c) ==> !self.cell(c).dead || (exists|n: int|
                self.cell(c).occupied(n))
        &&& forall|c: int, i: nat|
            self.has_cell(c) && #[trigger] self.cell(c).keeps@.contains(i) ==> i < self.next_id@
        &&& forall|c1: int, c2: int, i: nat|
            c1 != c2 && self.has_cell(c1) && self.has_cell(c2) && #[trigger] self.cell(
                c1,
            ).keeps@.contains(i) ==> !(#[trigger] self.cell(c2).keeps@.contains(i))
    }

    /// Every cell but `c` is untouched, and no fresh ids were spent.
    pub open spec fn frame_except(pre: Self, post: Self, c: int) -> bool {
        &&& post.cells@.len() == pre.cells@.len()
        &&& forall|c2: int|
            0 <= c2 < pre.cells@.len() && c2 != c ==> post.cells@[c2] == pre.cells@[c2]
        &&& post.next_id == pre.next_id
    }

    /// Every live readership of `pre` is a live readership of `post`, on the
    /// same value.
    pub open spec fn guards_kept(pre: Self, post: Self) -> bool {
        forall|g: Guard| #[trigger]
            g.valid(pre) ==> g.valid(post) && g.value_spec(post) == g.value_spec(pre)
    }

    /// Like [`Self::guards_kept`], except for the one readership being given
    /// up.
    pub open spec fn guards_kept_except(pre: Self, post: Self, ex: Guard) -> bool {
        forall|g: Guard| #[trigger]
            g.valid(pre) && g != ex ==> g.valid(post) && g.value_spec(post) == g.value_spec(pre)
    }

    /// Every live keep handle of `pre` is still live in `post`.
    pub open spec fn keeps_kept(pre: Self, post: Self) -> bool {
        forall|k: Keep| #[trigger] k.valid(pre) ==> k.valid(post)
    }

    /// Like [`Self::keeps_kept`], except for the one handle being given up.
    pub open spec fn keeps_kept_except(pre: Self, post: Self, ex: Keep) -> bool {
        forall|k: Keep| #[trigger] k.valid(pre) && k != ex ==> k.valid(post)
    }

    /// A dead cell never comes back to life.
    pub open spec fn dead_monotone(pre: Self, post: Self) -> bool {
        forall|c: int|
            pre.has_cell(c) && post.has_cell(c) && pre.cell(c).dead ==> post.cell(c).dead
    }

    /// Every living cell of `pre` lives on in `post` with the same current
    /// value and the same keep handles.
    pub open spec fn alive_kept(pre: Self, post: Self) -> bool {
        forall|c: int| #[trigger]
            pre.alive(c) ==> post.alive(c) && post.cur(c) == pre.cur(c) && post.cell(c).keeps
                == pre.cell(c).keeps && post.cell(c).keep_count == pre.cell(c).keep_count
    }

    /// A fresh, empty domain.
    pub fn new() -> (r: Self)
        ensures
            r.wf(),
            r.cells@.len() == 0,
    {
        Domain { cells: Vec::new(), next_id: Ghost(0) }
    }

    /// Creates a cell holding `value` and hands back a keep on it.
    pub fn keep(&mut self, value: V) -> (k: Keep)
        requires
            old(self).wf(),
        ensures
            final(self).wf(),
            k.valid(*final(self)),
            k.cell == old(self).cells@.len(),
            !old(self).has_cell(k.cell as int),
            final(self).cells@.len() == old(self).cells@.len() + 1,
            forall|c2: int|
                0 <= c2 < old(self).cells@.len() ==> final(self).cells@[c2] == old(self).cells@[c2],
            final(self).alive(k.cell as int),
            final(self).cur(k.cell as int) == value,
            final(self).cell(k.cell as int).keep_count == 1,
            Self::guards_kept(*old(self), *final(self)),
            Self::keeps_kept(*old(self), *final(self)),
            Self::dead_monotone(*old(self), *final(self)),
            Self::alive_kept(*old(self), *final(self)),
    {
        Keep::new(self, value)
    }

    /// Creates a cell holding `value` with no keep handle at all: the cell
    /// lives for as long as its current value stays registered, and must be
    /// retired by hand.  This is the form the map uses for its bins and
    /// value slots.
    pub fn new_cell(&mut self, value: V) -> (c: usize)
        requires
            old(self).wf(),
        ensures
            final(self).wf(),
            c == old(self).cells@.len(),
            !old(self).has_cell(c as int),
            final(self).cells@.len() == old(self).cells@.len() + 1,
            forall|c2: int|
                0 <= c2 < old(self).cells@.len() ==> final(self).cells@[c2] == old(self).cells@[c2],
            final(self).next_id == old(self).next_id,
            final(self).alive(c as int),
            final(self).cur(c as int) == value,
            final(self).cell(c as int).keep_count == 0,
            final(self).cell(c as int).keeps@ == Set::<nat>::empty(),
            Self::guards_kept(*old(self), *final(self)),
            Self::keeps_kept(*old(self), *final(self)),
            Self::dead_monotone(*old(self), *final(self)),
            Self::alive_kept(*old(self), *final(self)),
    {
        let c = self.cells.len();
        let ta = TrackedAtomic::new(c, value);
        self.cells.push(Some(ta));
        proof {
            lemma_grow(*old(self), *self, c as int);
        }
        c
    }

    /// Takes a readership on the current value of cell `c`.
    pub fn read_cell(&mut self, c: usize) -> (g: Guard)
        requires
            old(self).wf(),
            old(self).alive(c as int),
        ensures
            final(self).wf(),
            Self::frame_except(*old(self), *final(self), c as int),
            g.valid(*final(self)),
            g.cell == c,
            g.ptr == old(self).cell(c as int).current,
            g.value_spec(*final(self)) == old(self).cur(c as int),
            forall|g2: Guard| g2.valid(*old(self)) && g2.cell == c ==> g2.node != g.node,
            Self::guards_kept(*old(self), *final(self)),
            Self::keeps_kept(*old(self), *final(self)),
            Self::dead_monotone(*old(self), *final(self)),
            Self::alive_kept(*old(self), *final(self)),
            final(self).cell(c as int).slots == old(self).cell(c as int).slots,
            final(self).cell(c as int).current == old(self).cell(c as int).current,
            final(self).cell(c as int).current_node == old(self).cell(c as int).current_node,
            final(self).cell(c as int).dead == old(self).cell(c as int).dead,
            final(self).cell(c as int).keeps == old(self).cell(c as int).keeps,
            final(self).cell(c as int).keep_count == old(self).cell(c as int).keep_count,
    {
        let ghost pre = *self;
        let g = match &mut self.cells[c] {
            Some(ta) => ta.read(),
            None => vstd::pervasive::unreached(),
        };
        proof {
            lemma_cell_op(pre, *self, c as int);
            lemma_cell_op_guards(pre, *self, c as int);
            lemma_cell_op_alive(pre, *self, c as int);
            assert forall|g2: Guard| g2.valid(pre) && g2.cell == c implies g2.node != g.node by {
                assert(pre.cell(c as int).guard_ok(g2));
            }
        }
        g
    }

    /// Installs `value` as the new current value of cell `c`; the displaced
    /// value is reclaimed at once exactly when no guard holds it.
    pub fn write_cell(&mut self, c: usize, value: V)
        requires
            old(self).wf(),
            old(self).alive(c as int),
        ensures
            final(self).wf(),
            Self::frame_except(*old(self), *final(self), c as int),
            final(self).alive(c as int),
            final(self).cur(c as int) == value,
            Self::guards_kept(*old(self), *final(self)),
            Self::keeps_kept(*old(self), *final(self)),
            Self::dead_monotone(*old(self), *final(self)),
            forall|c2: int|
                #[trigger] old(self).alive(c2) && c2 != c ==> final(self).alive(c2) && final(self).cur(c2) == old(self).cur(c2) && final(self).cell(c2).keeps == old(self).cell(c2).keeps && final(self).cell(c2).keep_count == old(self).cell(c2).keep_count,
            final(self).cell(c as int).keeps == old(self).cell(c as int).keeps,
            final(self).cell(c as int).keep_count == old(self).cell(c as int).keep_count,
            // the displaced value is reclaimed exactly when no reader held it:
            final(self).cell(c as int).filled(old(self).cell(c as int).current) <==> (exists|n: int|
                n != old(self).cell(c as int).current_node && old(self).cell(c as int).registers(
                    n,
                    old(self).cell(c as int).current,
                )),
    {
        let ghost pre = *self;
        match &mut self.cells[c] {
            Some(ta) => ta.write(value),
            None => vstd::pervasive::unreached(),
        }
        proof {
            lemma_cell_op(pre, *self, c as int);
            lemma_cell_op_guards(pre, *self, c as int);
            lemma_frame_alive(pre, *self, c as int);
        }
    }

    /// Like [`Self::write_cell`], but hands the displaced value back as a
    /// guard instead of releasing it.
    pub fn swap_cell(&mut self, c: usize, value: V) -> (g: Guard)
        requires
            old(self).wf(),
            old(self).alive(c as int),
        ensures
            final(self).wf(),
            Self::frame_except(*old(self), *final(self), c as int),
            final(self).alive(c as int),
            final(self).cur(c as int) == value,
            g.valid(*final(self)),
            g.cell == c,
            g.ptr == old(self).cell(c as int).current,
            g.value_spec(*final(self)) == old(self).cur(c as int),
            forall|g2: Guard| g2.valid(*old(self)) && g2.cell == c ==> g2.node != g.node,
            Self::guards_kept(*old(self), *final(self)),
            Self::keeps_kept(*old(self), *final(self)),
            Self::dead_monotone(*old(self), *final(self)),
            forall|c2: int|
                #[trigger] old(self).alive(c2) && c2 != c ==> final(self).alive(c2) && final(self).cur(c2) == old(self).cur(c2) && final(self).cell(c2).keeps == old(self).cell(c2).keeps && final(self).cell(c2).keep_count == old(self).cell(c2).keep_count,
            final(self).cell(c as int).keeps == old(self).cell(c as int).keeps,
            final(self).cell(c as int).keep_count == old(self).cell(c as int).keep_count,
    {
        let ghost pre = *self;
        let g = match &mut self.cells[c] {
            Some(ta) => ta.swap(value),
            None => vstd::pervasive::unreached(),
        };
        proof {
            lemma_cell_op(pre, *self, c as int);
            lemma_cell_op_guards(pre, *self, c as int);
            lemma_frame_alive(pre, *self, c as int);
            assert forall|g2: Guard| g2.valid(pre) && g2.cell == c implies g2.node != g.node by {
                assert(pre.cell(c as int).guard_ok(g2));
            }
        }
        g
    }

    /// Replaces the current value of cell `c` with `value` only if the cell
    /// still holds the very pointer `expected` was taken on.  `Ok` carries
    /// the displaced value; `Err` carries a fresh readership on the actual
    /// current value, and `value` is discarded without ever being exposed.
    pub fn exchange_cell(&mut self, c: usize, expected: &Guard, value: V) -> (r: Result<
        Guard,
        Guard,
    >)
        requires
            old(self).wf(),
            old(self).alive(c as int),
            expected.valid(*old(self)),
            expected.cell == c,
        ensures
            final(self).wf(),
            Self::frame_except(*old(self), *final(self), c as int),
            final(self).alive(c as int),
            Self::guards_kept(*old(self), *final(self)),
            Self::keeps_kept(*old(self), *final(self)),
            Self::dead_monotone(*old(self), *final(self)),
            forall|c2: int|
                #[trigger] old(self).alive(c2) && c2 != c ==> final(self).alive(c2) && final(self).cur(c2) == old(self).cur(c2) && final(self).cell(c2).keeps == old(self).cell(c2).keeps && final(self).cell(c2).keep_count == old(self).cell(c2).keep_count,
            final(self).cell(c as int).keeps == old(self).cell(c as int).keeps,
            final(self).cell(c as int).keep_count == old(self).cell(c as int).keep_count,
            r is Ok <==> old(self).cell(c as int).current == expected.ptr,
            r matches Ok(g) ==> {
                &&& final(self).cur(c as int) == value
                &&& g.valid(*final(self))
                &&& g.cell == c
                &&& g.ptr == old(self).cell(c as int).current
                &&& g.value_spec(*final(self)) == old(self).cur(c as int)
                &&& forall|g2: Guard| g2.valid(*old(self)) && g2.cell == c ==> g2.node != g.node
            },
            r matches Err(g) ==> {
                &&& final(self).cur(c as int) == old(self).cur(c as int)
                &&& final(self).cell(c as int).current == old(self).cell(c as int).current
                &&& g.valid(*final(self))
                &&& g.cell == c
                &&& g.ptr == old(self).cell(c as int).current
                &&& g.value_spec(*final(self)) == old(self).cur(c as int)
                &&& forall|g2: Guard| g2.valid(*old(self)) && g2.cell == c ==> g2.node != g.node
            },
    {
        let ghost pre = *self;
        let r = match &mut self.cells[c] {
            Some(ta) => ta.exchange(expected, value),
            None => vstd::pervasive::unreached(),
        };
        proof {
            lemma_cell_op(pre, *self, c as int);
            lemma_cell_op_guards(pre, *self, c as int);
            lemma_frame_alive(pre, *self, c as int);
        }
        r
    }

    /// Retires a keep-less cell (one made by [`Self::alloc`]): releases the
    /// cell's own registration of its current value and raises the dead
    /// flag.  Guards taken on the cell stay valid; the last of them reclaims
    /// the cell, or the cell goes at once if there is none.
    pub fn retire_cell(&mut self, c: usize)
        requires
            old(self).wf(),
            old(self).alive(c as int),
            old(self).cell(c as int).keep_count == 0,
        ensures
            final(self).wf(),
            Self::frame_except(*old(self), *final(self), c as int),
            Self::guards_kept(*old(self), *final(self)),
            Self::keeps_kept(*old(self), *final(self)),
            Self::dead_monotone(*old(self), *final(self)),
            forall|c2: int|
                #[trigger] old(self).alive(c2) && c2 != c ==> final(self).alive(c2) && final(self).cur(c2) == old(self).cur(c2) && final(self).cell(c2).keeps == old(self).cell(c2).keeps && final(self).cell(c2).keep_count == old(self).cell(c2).keep_count,
            !final(self).alive(c as int),
            final(self).has_cell(c as int) ==> final(self).cell(c as int).dead,
    {
        let ghost pre = *self;
        let head_free = match &mut self.cells[c] {
            Some(ta) => ta.shut_down(),
            None => vstd::pervasive::unreached(),
        };
        let ghost mid = *self;
        if head_free {
            self.cells[c] = None;
        }
        proof {
            if head_free {
                assert forall|g2: Guard| g2.valid(pre) implies g2.cell as int != c as int by {
                    if g2.cell == c {
                        assert(pre.cell(c as int).guard_ok(g2));
                        assert(pre.cell(c as int).occupied(g2.node as int));
                    }
                }
                assert(self.cells@ =~= mid.cells@.update(c as int, None::<TrackedAtomic<V>>));
                lemma_cell_freed(pre, mid, *self, c as int);
                assert forall|g2: Guard| #[trigger] g2.valid(pre) implies g2.valid(*self)
                    && g2.value_spec(*self) == g2.value_spec(pre) by {
                    assert(g2.cell as int != c as int);
                    assert(self.cells@[g2.cell as int] == pre.cells@[g2.cell as int]);
                }
                assert forall|k: Keep| #[trigger] k.valid(pre) implies k.valid(*self) by {
                    if k.cell == c {
                        assert(pre.cell(c as int).keeps@.contains(k.id@));
                        assert(pre.cell(c as int).keeps@.len() > 0);
                    } else {
                        assert(self.cells@[k.cell as int] == pre.cells@[k.cell as int]);
                    }
                }
            } else {
                lemma_cell_op(pre, *self, c as int);
                lemma_cell_op_guards(pre, *self, c as int);
            }
            lemma_frame_alive(pre, *self, c as int);
        }
    }
}

/// Lifts per-cell facts to the whole domain after an operation that touched
/// only cell `c` and did not add any keep handle.
pub(crate) proof fn lemma_cell_op_core<V>(pre: Domain<V>, post: Domain<V>, c: int)
    requires
        pre.wf(),
        pre.has_cell(c),
        post.cells@.len() == pre.cells@.len(),
        forall|c2: int| 0 <= c2 < pre.cells@.len() && c2 != c ==> post.cells@[c2] == pre.cells@[c2],
        post.next_id == pre.next_id,
        post.has_cell(c),
        post.cell(c).wf(),
        post.cell(c).index == pre.cell(c).index,
        forall|i: nat|
            post.cell(c).keeps@.contains(i) ==> pre.cell(c).keeps@.contains(i),
        pre.cell(c).dead ==> post.cell(c).dead,
        !post.cell(c).dead || (exists|n: int| post.cell(c).occupied(n)),
    ensures
        post.wf(),
        Domain::dead_monotone(pre, post),
{
    assert forall|c2: int| #[trigger] post.has_cell(c2) implies post.cell(c2).wf() && post.cell(
        c2,
    ).index == c2 by {
        if c2 != c {
            assert(pre.has_cell(c2));
        }
    }
    assert forall|c2: int| #[trigger] post.has_cell(c2) implies !post.cell(c2).dead || (exists|
        n: int,
    | post.cell(c2).occupied(n)) by {
        if c2 != c {
            assert(pre.has_cell(c2));
        }
    }
    assert forall|c2: int, i: nat|
        post.has_cell(c2) && #[trigger] post.cell(c2).keeps@.contains(i) implies i
        < post.next_id@ by {
        if c2 != c {
            assert(pre.has_cell(c2));
            assert(pre.cell(c2).keeps@.contains(i));
        } else {
            assert(pre.cell(c).keeps@.contains(i));
        }
    }
    assert forall|c1: int, c2: int, i: nat|
        c1 != c2 && post.has_cell(c1) && post.has_cell(c2) && #[trigger] post.cell(
            c1,
        ).keeps@.contains(i) implies !(#[trigger] post.cell(c2).keeps@.contains(i)) by {
        assert(pre.has_cell(c1) && pre.has_cell(c2));
        assert(pre.cell(c1).keeps@.contains(i));
        assert(!pre.cell(c2).keeps@.contains(i));
        if post.cell(c2).keeps@.contains(i) {
            assert(pre.cell(c2).keeps@.contains(i));
        }
    }
}

/// Like [`lemma_cell_op_core`], for an operation that left the keep set of
/// cell `c` exactly in place.
pub(crate) proof fn lemma_cell_op<V>(pre: Domain<V>, post: Domain<V>, c: int)
    requires
        pre.wf(),
        pre.has_cell(c),
        post.cells@.len() == pre.cells@.len(),
        forall|c2: int| 0 <= c2 < pre.cells@.len() && c2 != c ==> post.cells@[c2] == pre.cells@[c2],
        post.next_id == pre.next_id,
        post.has_cell(c),
        post.cell(c).wf(),
        post.cell(c).index == pre.cell(c).index,
        post.cell(c).keeps == pre.cell(c).keeps,
        pre.cell(c).dead ==> post.cell(c).dead,
        !post.cell(c).dead || (exists|n: int| post.cell(c).occupied(n)),
    ensures
        post.wf(),
        Domain::dead_monotone(pre, post),
        Domain::keeps_kept(pre, post),
{
    lemma_cell_op_core(pre, post, c);
    assert forall|k: Keep| #[trigger] k.valid(pre) implies k.valid(post) by {
        if k.cell as int != c {
            assert(post.cells@[k.cell as int] == pre.cells@[k.cell as int]);
        }
    }
}

/// Lifts a per-cell `guards_kept` to the whole domain.
pub(crate) proof fn lemma_cell_op_guards<V>(pre: Domain<V>, post: Domain<V>, c: int)
    requires
        pre.wf(),
        pre.has_cell(c),
        post.cells@.len() == pre.cells@.len(),
        forall|c2: int| 0 <= c2 < pre.cells@.len() && c2 != c ==> post.cells@[c2] == pre.cells@[c2],
        post.has_cell(c),
        TrackedAtomic::guards_kept(pre.cell(c), post.cell(c)),
    ensures
        Domain::guards_kept(pre, post),
{
    assert forall|g: Guard| #[trigger] g.valid(pre) implies g.valid(post) && g.value_spec(post)
        == g.value_spec(pre) by {
        if g.cell as int == c {
            assert(pre.cell(c).guard_ok(g));
        } else {
            assert(post.cells@[g.cell as int] == pre.cells@[g.cell as int]);
        }
    }
}

/// Cells other than `c` keep their liveness, value and keep handles.
pub(crate) proof fn lemma_frame_alive<V>(pre: Domain<V>, post: Domain<V>, c: int)
    requires
        post.cells@.len() == pre.cells@.len(),
        forall|c2: int| 0 <= c2 < pre.cells@.len() && c2 != c ==> post.cells@[c2] == pre.cells@[c2],
    ensures
        forall|c2: int|
            #[trigger] pre.alive(c2) && c2 != c ==> post.alive(c2) && post.cur(c2) == pre.cur(c2)
                && post.cell(c2).keeps == pre.cell(c2).keeps && post.cell(c2).keep_count
                == pre.cell(c2).keep_count,
{
    assert forall|c2: int| #[trigger] pre.alive(c2) && c2 != c implies post.alive(c2) && post.cur(
        c2,
    ) == pre.cur(c2) && post.cell(c2).keeps == pre.cell(c2).keeps && post.cell(c2).keep_count
        == pre.cell(c2).keep_count by {
        assert(post.cells@[c2] == pre.cells@[c2]);
    }
}

/// Lifts per-cell liveness preservation to the whole domain.
pub(crate) proof fn lemma_cell_op_alive<V>(pre: Domain<V>, post: Domain<V>, c: int)
    requires
        post.cells@.len() == pre.cells@.len(),
        forall|c2: int| 0 <= c2 < pre.cells@.len() && c2 != c ==> post.cells@[c2] == pre.cells@[c2],
        pre.alive(c) ==> post.alive(c) && post.cur(c) == pre.cur(c) && post.cell(c).keeps
            == pre.cell(c).keeps && post.cell(c).keep_count == pre.cell(c).keep_count,
    ensures
        Domain::alive_kept(pre, post),
{
    assert forall|c2: int| #[trigger] pre.alive(c2) implies post.alive(c2) && post.cur(c2)
        == pre.cur(c2) && post.cell(c2).keeps == pre.cell(c2).keeps && post.cell(c2).keep_count
        == pre.cell(c2).keep_count by {
        if c2 != c {
            assert(post.cells@[c2] == pre.cells@[c2]);
        }
    }
}

/// Lifts the reclamation of cell `c` (which had no keeps left) to the whole
/// domain.
pub(crate) proof fn lemma_cell_freed<V>(pre: Domain<V>, mid: Domain<V>, post: Domain<V>, c: int)
    requires
        pre.wf(),
        pre.has_cell(c),
        mid.cells@.len() == pre.cells@.len(),
        forall|c2: int| 0 <= c2 < pre.cells@.len() && c2 != c ==> mid.cells@[c2] == pre.cells@[c2],
        mid.next_id == pre.next_id,
        post.cells@ == mid.cells@.update(c, None::<TrackedAtomic<V>>),
        post.next_id == mid.next_id,
    ensures
        post.wf(),
        Domain::dead_monotone(pre, post),
        Domain::frame_except(pre, post, c),
{
    assert forall|c2: int| #[trigger] post.has_cell(c2) implies post.cell(c2).wf() && post.cell(
        c2,
    ).index == c2 by {
        assert(c2 != c);
        assert(post.cells@[c2] == pre.cells@[c2]);
        assert(pre.has_cell(c2));
    }
    assert forall|c2: int| #[trigger] post.has_cell(c2) implies !post.cell(c2).dead || (exists|
        n: int,
    | post.cell(c2).occupied(n)) by {
        assert(c2 != c);
        assert(post.cells@[c2] == pre.cells@[c2]);
        assert(pre.has_cell(c2));
    }
    assert forall|c2: int, i: nat|
        post.has_cell(c2) && #[trigger] post.cell(c2).keeps@.contains(i) implies i
        < post.next_id@ by {
        assert(c2 != c);
        assert(post.cells@[c2] == pre.cells@[c2]);
        assert(pre.has_cell(c2));
        assert(pre.cell(c2).keeps@.contains(i));
    }
    assert forall|c1: int, c2: int, i: nat|
        c1 != c2 && post.has_cell(c1) && post.has_cell(c2) && #[trigger] post.cell(
            c1,
        ).keeps@.contains(i) implies !(#[trigger] post.cell(c2).keeps@.contains(i)) by {
        assert(c1 != c && c2 != c);
        assert(post.cells@[c1] == pre.cells@[c1]);
        assert(post.cells@[c2] == pre.cells@[c2]);
        assert(pre.has_cell(c1) && pre.has_cell(c2));
        assert(pre.cell(c1).keeps@.contains(i));
    }
}

/// Lifts the granting of a fresh keep id `id` on cell `c` to the whole
/// domain.
pub(crate) proof fn lemma_keeps_insert<V>(pre: Domain<V>, post: Domain<V>, c: int, id: nat)
    requires
        pre.wf(),
        pre.has_cell(c),
        post.cells@.len() == pre.cells@.len(),
        forall|c2: int| 0 <= c2 < pre.cells@.len() && c2 != c ==> post.cells@[c2] == pre.cells@[c2],
        post.has_cell(c),
        post.cell(c).wf(),
        post.cell(c).index == pre.cell(c).index,
        post.cell(c).slots == pre.cell(c).slots,
        post.cell(c).nodes == pre.cell(c).nodes,
        post.cell(c).current == pre.cell(c).current,
        post.cell(c).current_node == pre.cell(c).current_node,
        post.cell(c).dead == pre.cell(c).dead,
        post.cell(c).keeps@ == pre.cell(c).keeps@.insert(id),
        id >= pre.next_id@,
        post.next_id@ > id,
        post.next_id@ >= pre.next_id@,
    ensures
        post.wf(),
        Domain::dead_monotone(pre, post),
        Domain::keeps_kept(pre, post),
        Domain::guards_kept(pre, post),
        forall|c2: int|
            #[trigger] pre.alive(c2) && c2 != c ==> post.alive(c2) && post.cur(c2) == pre.cur(c2)
                && post.cell(c2).keeps == pre.cell(c2).keeps && post.cell(c2).keep_count
                == pre.cell(c2).keep_count,
{
    assert forall|c2: int| #[trigger] post.has_cell(c2) implies post.cell(c2).wf() && post.cell(
        c2,
    ).index == c2 by {
        if c2 != c {
            assert(pre.has_cell(c2));
        }
    }
    assert forall|c2: int| #[trigger] post.has_cell(c2) implies !post.cell(c2).dead || (exists|
        n: int,
    | post.cell(c2).occupied(n)) by {
        if c2 != c {
            assert(pre.has_cell(c2));
        } else {
            if post.cell(c).dead {
                assert(pre.has_cell(c));
                let n = choose|n: int| pre.cell(c).occupied(n);
                assert(post.cell(c).occupied(n));
            }
        }
    }
    assert forall|c2: int, i: nat|
        post.has_cell(c2) && #[trigger] post.cell(c2).keeps@.contains(i) implies i
        < post.next_id@ by {
        if c2 != c {
            assert(pre.has_cell(c2));
            assert(pre.cell(c2).keeps@.contains(i));
        } else {
            if i != id {
                assert(pre.cell(c).keeps@.contains(i));
            }
        }
    }
    assert forall|c1: int, c2: int, i: nat|
        c1 != c2 && post.has_cell(c1) && post.has_cell(c2) && #[trigger] post.cell(
            c1,
        ).keeps@.contains(i) implies !(#[trigger] post.cell(c2).keeps@.contains(i)) by {
        if c1 == c {
            if i == id {
                if post.cell(c2).keeps@.contains(i) {
                    assert(pre.has_cell(c2));
                    assert(pre.cell(c2).keeps@.contains(i));
                    assert(i < pre.next_id@);
                }
            } else {
                assert(pre.cell(c1).keeps@.contains(i));
                if post.cell(c2).keeps@.contains(i) {
                    assert(pre.cell(c2).keeps@.contains(i));
                }
            }
        } else if c2 == c {
            assert(pre.has_cell(c1));
            assert(pre.cell(c1).keeps@.contains(i));
            assert(i < pre.next_id@);
            if post.cell(c2).keeps@.contains(i) {
                if i == id {
                    assert(i >= pre.next_id@);
                } else {
                    assert(pre.cell(c2).keeps@.contains(i));
                }
            }
        } else {
            assert(pre.has_cell(c1) && pre.has_cell(c2));
            assert(pre.cell(c1).keeps@.contains(i));
            if post.cell(c2).keeps@.contains(i) {
                assert(pre.cell(c2).keeps@.contains(i));
            }
        }
    }
    assert forall|k: Keep| #[trigger] k.valid(pre) implies k.valid(post) by {
        if k.cell as int != c {
            assert(post.cells@[k.cell as int] == pre.cells@[k.cell as int]);
        }
    }
    assert forall|g: Guard| #[trigger] g.valid(pre) implies g.valid(post) && g.value_spec(post)
        == g.value_spec(pre) by {
        if g.cell as int != c {
            assert(post.cells@[g.cell as int] == pre.cells@[g.cell as int]);
        }
    }
    lemma_frame_alive(pre, post, c);
}

/// Establishes domain well-formedness after a fresh cell is pushed.
pub(crate) proof fn lemma_grow<V>(pre: Domain<V>, post: Domain<V>, c: int)
    requires
        pre.wf(),
        c == pre.cells@.len(),
        post.cells@.len() == pre.cells@.len() + 1,
        forall|c2: int| 0 <= c2 < pre.cells@.len() ==> post.cells@[c2] == pre.cells@[c2],
        post.has_cell(c),
        post.cell(c).wf(),
        post.cell(c).index == c,
        !post.cell(c).dead,
        forall|i: nat| post.cell(c).keeps@.contains(i) ==> i < post.next_id@,
        forall|i: nat| post.cell(c).keeps@.contains(i) ==> i >= pre.next_id@,
        post.next_id@ >= pre.next_id@,
    ensures
        post.wf(),
        Domain::guards_kept(pre, post),
        Domain::keeps_kept(pre, post),
        Domain::dead_monotone(pre, post),
        Domain::alive_kept(pre, post),
{
    assert forall|c2: int| #[trigger] post.has_cell(c2) implies post.cell(c2).wf() && post.cell(
        c2,
    ).index == c2 by {
        if c2 != c {
            assert(pre.has_cell(c2));
        }
    }
    assert forall|c2: int| #[trigger] post.has_cell(c2) implies !post.cell(c2).dead || (exists|
        n: int,
    | post.cell(c2).occupied(n)) by {
        if c2 != c {
            assert(pre.has_cell(c2));
        }
    }
    assert forall|c2: int, i: nat|
        post.has_cell(c2) && #[trigger] post.cell(c2).keeps@.contains(i) implies i
        < post.next_id@ by {
        if c2 != c {
            assert(pre.has_cell(c2));
            assert(pre.cell(c2).keeps@.contains(i));
        }
    }
    assert forall|c1: int, c2: int, i: nat|
        c1 != c2 && post.has_cell(c1) && post.has_cell(c2) && #[trigger] post.cell(
            c1,
        ).keeps@.contains(i) implies !(#[trigger] post.cell(c2).keeps@.contains(i)) by {
        if c1 == c {
            if post.cell(c2).keeps@.contains(i) {
                assert(pre.has_cell(c2));
                assert(pre.cell(c2).keeps@.contains(i));
                assert(i < pre.next_id@);
            }
        } else if c2 == c {
            assert(pre.has_cell(c1));
            assert(pre.cell(c1).keeps@.contains(i));
            if post.cell(c2).keeps@.contains(i) {
                assert(i >= pre.next_id@);
                assert(i < pre.next_id@);
            }
        } else {
            assert(pre.has_cell(c1) && pre.has_cell(c2));
            assert(pre.cell(c1).keeps@.contains(i));
        }
    }
    assert forall|g: Guard| #[trigger] g.valid(pre) implies g.valid(post) && g.value_spec(post)
        == g.value_spec(pre) by {
        assert(post.cells@[g.cell as int] == pre.cells@[g.cell as int]);
    }
    assert forall|k: Keep| #[trigger] k.valid(pre) implies k.valid(post) by {
        assert(post.cells@[k.cell as int] == pre.cells@[k.cell as int]);
    }
    assert forall|c2: int| #[trigger] pre.alive(c2) implies post.alive(c2) && post.cur(c2)
        == pre.cur(c2) && post.cell(c2).keeps == pre.cell(c2).keeps && post.cell(c2).keep_count
        == pre.cell(c2).keep_count by {
        assert(post.cells@[c2] == pre.cells@[c2]);
    }
}

} // verus!
