use crate::domain::Domain;
use crate::guard::Guard;
use crate::keep::{swap_rel, Keep};
use vstd::prelude::*;

verus! {

/// Readership safety: a live guard always points at an allocated value —
/// dereferencing it is meaningful in every well-formed domain.
pub proof fn lemma_readership_safety<V>(dom: Domain<V>, g: Guard)
    requires
        dom.wf(),
        g.valid(dom),
    ensures
        dom.cell(g.cell as int).filled(g.ptr),
        g.value_spec(dom) == dom.cell(g.cell as int).value_at(g.ptr),
{
    assert(dom.cell(g.cell as int).occupied(g.node as int));
}

/// No premature free: across any step that only gives up the readership
/// `ex`, every other live guard still points at its allocated value, which
/// is unchanged.  (Every operation of the library that releases a guard
/// promises `guards_kept_except` for it.)
pub proof fn lemma_no_premature_free<V>(pre: Domain<V>, post: Domain<V>, ex: Guard, g: Guard)
    requires
        pre.wf(),
        post.wf(),
        g.valid(pre),
        g != ex,
        Domain::guards_kept_except(pre, post, ex),
    ensures
        g.valid(post),
        post.cell(g.cell as int).filled(g.ptr),
        g.value_spec(post) == g.value_spec(pre),
{
    assert(g.valid(post) && g.value_spec(post) == g.value_spec(pre));
    lemma_readership_safety(post, g);
}

/// No leak under correct drop: once every keep is gone and every
/// registration has been released, nothing is left — every cell, with all
/// its slots and nodes, has been reclaimed.
pub proof fn lemma_no_leak<V>(dom: Domain<V>)
    requires
        dom.wf(),
        forall|c: int| #[trigger] dom.has_cell(c) ==> dom.cell(c).keep_count == 0,
        forall|c: int, n: int| dom.has_cell(c) ==> !(#[trigger] dom.cell(c).occupied(n)),
    ensures
        forall|c: int| 0 <= c < dom.cells@.len() ==> dom.cells@[c] is None,
{
    assert forall|c: int| 0 <= c < dom.cells@.len() implies dom.cells@[c] is None by {
        if dom.cells@[c] is Some {
            assert(dom.has_cell(c));
            if dom.cell(c).dead {
                // the existence invariant would demand a live registration
                let n = choose|n: int| dom.cell(c).occupied(n);
                assert(!dom.cell(c).occupied(n));
            } else {
                // an undead cell registers its current value
                assert(dom.cell(c).registers(dom.cell(c).current_node as int, dom.cell(c).current));
                assert(dom.cell(c).occupied(dom.cell(c).current_node as int));
            }
        }
    }
}

/// Keep-count consistency: the keep count of every cell equals the number
/// of its live keep handles (the ghost set `keeps` holds exactly their ids).
pub proof fn lemma_keep_count_consistency<V>(dom: Domain<V>, c: int)
    requires
        dom.wf(),
        dom.has_cell(c),
    ensures
        dom.cell(c).keep_count == dom.cell(c).keeps@.len(),
        dom.cell(c).keeps@.finite(),
{
}

/// Round trip: read, then write `x`, then read again.  The first guard
/// still dereferences to the value before the write; the second to `x`.
/// The hypotheses are clauses of the contracts of `Keep::read` and
/// `Keep::write`, taken at the three states the calls leave behind.
pub proof fn lemma_round_trip<V>(
    d0: Domain<V>,
    d1: Domain<V>,
    d2: Domain<V>,
    d3: Domain<V>,
    k: Keep,
    g: Guard,
    g2: Guard,
    x: V,
)
    requires
        d0.wf(),
        k.valid(d0),
        // what the first `read` left behind
        g.valid(d1),
        g.value_spec(d1) == d0.cur(k.cell as int),
        Domain::guards_kept(d0, d1),
        // what `write` left behind
        d2.cur(k.cell as int) == x,
        Domain::guards_kept(d1, d2),
        // what the second `read` left behind
        g2.valid(d3),
        g2.value_spec(d3) == d2.cur(k.cell as int),
        Domain::guards_kept(d2, d3),
    ensures
        g.valid(d3),
        g.value_spec(d3) == d0.cur(k.cell as int),
        g2.value_spec(d3) == x,
{
    assert(g.valid(d2) && g.value_spec(d2) == g.value_spec(d1));
    assert(g.valid(d3) && g.value_spec(d3) == g.value_spec(d2));
}

/// Idempotent clone: a duplicated guard reads the same value as its
/// original, and stays valid on its own — here, across the release of the
/// original.  The hypotheses are clauses of the contracts of
/// `Guard::duplicate` and `Guard::release`.
pub proof fn lemma_clone_independent<V>(
    d0: Domain<V>,
    d1: Domain<V>,
    d2: Domain<V>,
    g: Guard,
    gc: Guard,
)
    requires
        d0.wf(),
        d1.wf(),
        g.valid(d0),
        // what `duplicate` left behind
        gc.valid(d1),
        gc.cell == g.cell,
        gc.ptr == g.ptr,
        gc.value_spec(d1) == g.value_spec(d0),
        Domain::guards_kept(d0, d1),
        forall|g3: Guard| g3.valid(d0) && g3.cell == g.cell ==> g3.node != gc.node,
        // what releasing `g` left behind
        Domain::guards_kept_except(d1, d2, g),
    ensures
        gc.valid(d2),
        gc.value_spec(d2) == g.value_spec(d0),
{
    assert(gc.node != g.node);
    assert(gc != g);
    assert(gc.valid(d2) && gc.value_spec(d2) == gc.value_spec(d1));
}

/// `swap_with` reversibility: trading cells twice hands both keeps their
/// original cells back and leaves every cell of the domain exactly as it
/// was.  The hypotheses are the relation `swap_rel` that `Keep::swap_with`
/// ensures, taken for the two consecutive calls.
pub proof fn lemma_swap_with_reversible<V>(
    d0: Domain<V>,
    d1: Domain<V>,
    d2: Domain<V>,
    k1: Keep,
    k2: Keep,
    k1a: Keep,
    k2a: Keep,
    k1b: Keep,
    k2b: Keep,
)
    requires
        d0.wf(),
        k1.valid(d0),
        k2.valid(d0),
        swap_rel(d0, d1, k1, k2, k1a, k2a),
        swap_rel(d1, d2, k1a, k2a, k1b, k2b),
    ensures
        k1b.cell == k1.cell && k1b.id == k1.id,
        k2b.cell == k2.cell && k2b.id == k2.id,
        k1b.valid(d2),
        k2b.valid(d2),
        d2.cells@.len() == d0.cells@.len(),
        forall|c: int| 0 <= c < d0.cells@.len() ==> d2.has_cell(c) == d0.has_cell(c),
        forall|c: int| #[trigger] d0.has_cell(c) ==> d2.cell(c).keeps@ =~= d0.cell(c).keeps@,
        forall|c: int|
            #[trigger] d0.has_cell(c) ==> d2.cell(c).slots == d0.cell(c).slots && d2.cell(c).nodes
                == d0.cell(c).nodes && d2.cell(c).current == d0.cell(c).current && d2.cell(
                c,
            ).current_node == d0.cell(c).current_node && d2.cell(c).dead == d0.cell(c).dead
                && d2.cell(c).keep_count == d0.cell(c).keep_count,
{
    let a = k1.cell as int;
    let b = k2.cell as int;
    if k1.cell == k2.cell {
        assert(d1 == d0);
        assert(d2 == d1);
    } else {
        assert(k1a.cell == k2.cell && k2a.cell == k1.cell);
        assert(k1a.cell != k2a.cell);
        let ka = d0.cell(a).keeps@;
        let kb = d0.cell(b).keeps@;
        assert(ka.contains(k1.id@));
        assert(kb.contains(k2.id@));
        assert(!ka.contains(k2.id@));
        assert(!kb.contains(k1.id@));
        assert(d1.cell(a).keeps@ == ka.remove(k1.id@).insert(k2.id@));
        assert(d1.cell(b).keeps@ == kb.remove(k2.id@).insert(k1.id@));
        // the second swap acts on (k1a on cell b, k2a on cell a)
        assert(d2.cell(k1a.cell as int).keeps@ == d1.cell(k1a.cell as int).keeps@.remove(
            k1a.id@,
        ).insert(k2a.id@));
        assert(d2.cell(k2a.cell as int).keeps@ == d1.cell(k2a.cell as int).keeps@.remove(
            k2a.id@,
        ).insert(k1a.id@));
        assert(d2.cell(a).keeps@ =~= ka);
        assert(d2.cell(b).keeps@ =~= kb);
        assert forall|c: int| 0 <= c < d0.cells@.len() implies d2.has_cell(c) == d0.has_cell(
            c,
        ) by {
            if c != a && c != b {
                assert(d1.cells@[c] == d0.cells@[c]);
                assert(d2.cells@[c] == d1.cells@[c]);
            }
        }
        assert forall|c: int| #[trigger] d0.has_cell(c) implies d2.cell(c).slots == d0.cell(
            c,
        ).slots && d2.cell(c).nodes == d0.cell(c).nodes && d2.cell(c).current == d0.cell(
            c,
        ).current && d2.cell(c).current_node == d0.cell(c).current_node && d2.cell(c).dead
            == d0.cell(c).dead && d2.cell(c).keep_count == d0.cell(c).keep_count by {
            if c != a && c != b {
                assert(d1.cells@[c] == d0.cells@[c]);
                assert(d2.cells@[c] == d1.cells@[c]);
            }
        }
    }
}

} // verus!
