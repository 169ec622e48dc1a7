//! Connectivity in undirected graphs whose edges are given by a predicate.
use vstd::prelude::*;

verus! {

/// Whether `e` joins `a` and `b` in either direction.
pub open spec fn joins(e: spec_fn(int, int) -> bool, a: int, b: int) -> bool {
    e(a, b) || e(b, a)
}

/// `p` is a non-empty walk: each node is joined to the next.
pub open spec fn is_walk(e: spec_fn(int, int) -> bool, p: Seq<int>) -> bool {
    &&& p.len() >= 1
    &&& forall|k: int| 0 <= k < p.len() - 1 ==> joins(e, #[trigger] p[k], p[k + 1])
}

/// Whether a walk leads from `a` to `b`.
pub open spec fn linked(e: spec_fn(int, int) -> bool, a: int, b: int) -> bool {
    exists|p: Seq<int>| #[trigger] is_walk(e, p) && p[0] == a && p.last() == b
}

/// Every node is linked to itself.
pub proof fn lemma_linked_refl(e: spec_fn(int, int) -> bool, a: int)
    ensures
        linked(e, a, a),
{
    let p = seq![a];
    assert(is_walk(e, p));
}

/// Walks can be taken backwards.
pub proof fn lemma_linked_sym(e: spec_fn(int, int) -> bool, a: int, b: int)
    requires
        linked(e, a, b),
    ensures
        linked(e, b, a),
{
    let p = choose|p: Seq<int>| #[trigger] is_walk(e, p) && p[0] == a && p.last() == b;
    let q = p.reverse();
    assert forall|k: int| 0 <= k < q.len() - 1 implies joins(e, #[trigger] q[k], q[k + 1]) by {
        let i = p.len() - 2 - k;
        assert(q[k] == p[i + 1]);
        assert(q[k + 1] == p[i]);
        assert(joins(e, p[i], p[i + 1]));
    }
    assert(is_walk(e, q));
    assert(q[0] == b);
    assert(q.last() == a);
}

/// Walks can be joined end to start.
pub proof fn lemma_linked_trans(e: spec_fn(int, int) -> bool, a: int, b: int, c: int)
    requires
        linked(e, a, b),
        linked(e, b, c),
    ensures
        linked(e, a, c),
{
    let p = choose|p: Seq<int>| #[trigger] is_walk(e, p) && p[0] == a && p.last() == b;
    let q = choose|q: Seq<int>| #[trigger] is_walk(e, q) && q[0] == b && q.last() == c;
    let r = p + q.drop_first();
    assert forall|k: int| 0 <= k < r.len() - 1 implies joins(e, #[trigger] r[k], r[k + 1]) by {
        if k < p.len() - 1 {
            assert(r[k] == p[k] && r[k + 1] == p[k + 1]);
        } else if k == p.len() - 1 {
            assert(r[k] == p.last());
            assert(r[k + 1] == q[1]);
            assert(joins(e, q[0], q[1]));
        } else {
            let i = k - p.len() + 1;
            assert(r[k] == q[i]);
            assert(r[k + 1] == q[i + 1]);
        }
    }
    assert(is_walk(e, r));
    if q.len() == 1 {
        assert(r =~= p);
    } else {
        assert(r.last() == q.last());
    }
}

/// Nodes joined by an edge are linked.
pub proof fn lemma_linked_edge(e: spec_fn(int, int) -> bool, a: int, b: int)
    requires
        joins(e, a, b),
    ensures
        linked(e, a, b),
{
    let p = seq![a, b];
    assert(is_walk(e, p));
}

/// More edges link at least the same nodes.
pub proof fn lemma_linked_mono(e: spec_fn(int, int) -> bool, f: spec_fn(int, int) -> bool, a: int, b: int)
    requires
        linked(e, a, b),
        forall|x: int, y: int| #[trigger] e(x, y) ==> f(x, y),
    ensures
        linked(f, a, b),
{
    let p = choose|p: Seq<int>| #[trigger] is_walk(e, p) && p[0] == a && p.last() == b;
    assert forall|k: int| 0 <= k < p.len() - 1 implies joins(f, #[trigger] p[k], p[k + 1]) by {
        assert(joins(e, p[k], p[k + 1]));
    }
    assert(is_walk(f, p));
}

/// A map that carries each edge of `e` to an edge of `f` carries walks too.
pub proof fn lemma_linked_map(e: spec_fn(int, int) -> bool, f: spec_fn(int, int) -> bool, g: spec_fn(int) -> int, a: int, b: int)
    requires
        linked(e, a, b),
        forall|x: int, y: int| #[trigger] e(x, y) ==> joins(f, g(x), g(y)),
    ensures
        linked(f, g(a), g(b)),
{
    let p = choose|p: Seq<int>| #[trigger] is_walk(e, p) && p[0] == a && p.last() == b;
    let q = p.map_values(g);
    assert forall|k: int| 0 <= k < q.len() - 1 implies joins(f, #[trigger] q[k], q[k + 1]) by {
        assert(joins(e, p[k], p[k + 1]));
        assert(q[k] == g(p[k]) && q[k + 1] == g(p[k + 1]));
    }
    assert(is_walk(f, q));
    assert(q[0] == g(a));
    assert(q.last() == g(b));
}

/// Graphs with the same edges link the same nodes.
pub proof fn lemma_linked_same(e: spec_fn(int, int) -> bool, f: spec_fn(int, int) -> bool, a: int, b: int)
    requires
        forall|x: int, y: int| #[trigger] e(x, y) == f(x, y),
    ensures
        linked(e, a, b) == linked(f, a, b),
{
    if linked(e, a, b) {
        lemma_linked_mono(e, f, a, b);
    }
    if linked(f, a, b) {
        lemma_linked_mono(f, e, a, b);
    }
}

/// Adding the edge `{a, b}` to `e` (giving `f`) links `x` to `y` exactly when
/// they were linked, or linked through the new edge.
pub proof fn lemma_linked_add_edge(
    e: spec_fn(int, int) -> bool,
    f: spec_fn(int, int) -> bool,
    a: int,
    b: int,
    x: int,
    y: int,
)
    requires
        forall|u: int, v: int| #[trigger] f(u, v) == (e(u, v) || (u == a && v == b)),
    ensures
        linked(f, x, y) == (linked(e, x, y) || (linked(e, x, a) && linked(e, b, y)) || (linked(e, x, b)
            && linked(e, a, y))),
{
    if linked(e, x, y) {
        lemma_linked_mono(e, f, x, y);
    }
    if linked(e, x, a) && linked(e, b, y) {
        lemma_linked_mono(e, f, x, a);
        lemma_linked_mono(e, f, b, y);
        lemma_linked_edge(f, a, b);
        lemma_linked_trans(f, x, a, b);
        lemma_linked_trans(f, x, b, y);
    }
    if linked(e, x, b) && linked(e, a, y) {
        lemma_linked_mono(e, f, x, b);
        lemma_linked_mono(e, f, a, y);
        lemma_linked_edge(f, a, b);
        lemma_linked_sym(f, a, b);
        lemma_linked_trans(f, x, b, a);
        lemma_linked_trans(f, x, a, y);
    }
    if linked(f, x, y) {
        let p = choose|p: Seq<int>| #[trigger] is_walk(f, p) && p[0] == x && p.last() == y;
        lemma_walk_split(e, f, a, b, p);
    }
}

proof fn lemma_walk_split(e: spec_fn(int, int) -> bool, f: spec_fn(int, int) -> bool, a: int, b: int, p: Seq<int>)
    requires
        forall|u: int, v: int| #[trigger] f(u, v) == (e(u, v) || (u == a && v == b)),
        is_walk(f, p),
    ensures
        linked(e, p[0], p.last()) || (linked(e, p[0], a) && linked(e, b, p.last())) || (linked(e, p[0], b)
            && linked(e, a, p.last())),
    decreases p.len(),
{
    let x = p[0];
    if p.len() == 1 {
        lemma_linked_refl(e, x);
    } else {
        let q = p.drop_last();
        assert forall|k: int| 0 <= k < q.len() - 1 implies joins(f, #[trigger] q[k], q[k + 1]) by {
            assert(q[k] == p[k] && q[k + 1] == p[k + 1]);
        }
        assert(is_walk(f, q));
        lemma_walk_split(e, f, a, b, q);
        let u = q.last();
        let y = p.last();
        assert(u == p[p.len() - 2]);
        assert(joins(f, p[p.len() - 2], p[p.len() - 1]));
        assert(joins(f, u, y));
        lemma_linked_refl(e, a);
        lemma_linked_refl(e, b);
        if joins(e, u, y) {
            lemma_linked_edge(e, u, y);
            if linked(e, x, u) {
                lemma_linked_trans(e, x, u, y);
            }
            if linked(e, x, a) && linked(e, b, u) {
                lemma_linked_trans(e, b, u, y);
            }
            if linked(e, x, b) && linked(e, a, u) {
                lemma_linked_trans(e, a, u, y);
            }
        } else {
            // The last step is the new edge.
            assert((u == a && y == b) || (u == b && y == a));
            if u == a && y == b {
                if linked(e, x, b) && linked(e, a, u) {
                    assert(linked(e, x, y));
                }
            } else {
                if linked(e, x, a) && linked(e, b, u) {
                    assert(linked(e, x, y));
                }
            }
        }
    }
}

} // verus!
