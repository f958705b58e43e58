//! Directed graphs as lists of successors, and reachability in them.

use vstd::prelude::*;

verus! {

/// The successors of each vertex of `graph`.
pub open spec fn adjacency(graph: Vec<Vec<usize>>) -> Seq<Seq<usize>> {
    Seq::new(graph@.len(), |u: int| graph@[u]@)
}

/// Whether every successor in `adj` is a vertex.
pub open spec fn graph_ok(adj: Seq<Seq<usize>>) -> bool {
    forall|u: int, k: int|
        0 <= u < adj.len() && 0 <= k < adj[u].len() ==> (#[trigger] adj[u][k]) < adj.len()
}

/// Whether `adj` has an edge from `u` to `v`.
pub open spec fn has_edge(adj: Seq<Seq<usize>>, u: int, v: int) -> bool {
    &&& 0 <= u < adj.len()
    &&& exists|k: int| 0 <= k < adj[u].len() && #[trigger] adj[u][k] == v
}

/// Whether `p` is a walk along the edges of `adj`; one vertex is a walk.
pub open spec fn is_walk(adj: Seq<Seq<usize>>, p: Seq<int>) -> bool {
    &&& p.len() >= 1
    &&& 0 <= p[0] < adj.len()
    &&& forall|i: int| 0 <= i < p.len() - 1 ==> has_edge(adj, #[trigger] p[i], p[i + 1])
}

/// Whether `p` is a walk from `u` to `v`.
pub open spec fn walk_between(adj: Seq<Seq<usize>>, p: Seq<int>, u: int, v: int) -> bool {
    is_walk(adj, p) && p[0] == u && p.last() == v
}

/// Whether `v` can be reached from `u` along edges of `adj`, in any number
/// of steps.
pub open spec fn reaches(adj: Seq<Seq<usize>>, u: int, v: int) -> bool {
    exists|p: Seq<int>| walk_between(adj, p, u, v)
}

/// Every vertex reaches itself.
pub proof fn lemma_reaches_self(adj: Seq<Seq<usize>>, u: int)
    requires
        0 <= u < adj.len(),
    ensures
        reaches(adj, u, u),
{
    assert(walk_between(adj, seq![u], u, u));
}

/// A walk goes on along an edge.
pub proof fn lemma_reaches_step(adj: Seq<Seq<usize>>, u: int, v: int, w: int)
    requires
        reaches(adj, u, v),
        has_edge(adj, v, w),
    ensures
        reaches(adj, u, w),
{
    let p = choose|p: Seq<int>| walk_between(adj, p, u, v);
    let q = p.push(w);
    assert forall|i: int| 0 <= i < q.len() - 1 implies has_edge(adj, #[trigger] q[i], q[i + 1]) by {
        if i < p.len() - 1 {
            assert(has_edge(adj, p[i], p[i + 1]));
        }
    }
    assert(walk_between(adj, q, u, w));
}

/// An edge is a walk.
pub proof fn lemma_edge_reaches(adj: Seq<Seq<usize>>, u: int, v: int)
    requires
        has_edge(adj, u, v),
    ensures
        reaches(adj, u, v),
{
    lemma_reaches_self(adj, u);
    lemma_reaches_step(adj, u, u, v);
}

/// Two walks, one after the other, are a walk.
pub proof fn lemma_reaches_trans(adj: Seq<Seq<usize>>, u: int, v: int, w: int)
    requires
        reaches(adj, u, v),
        reaches(adj, v, w),
    ensures
        reaches(adj, u, w),
{
    let p = choose|p: Seq<int>| walk_between(adj, p, u, v);
    let q = choose|q: Seq<int>| walk_between(adj, q, v, w);
    let pq = p + q.subrange(1, q.len() as int);
    assert forall|i: int| 0 <= i < pq.len() - 1 implies has_edge(adj, #[trigger] pq[i], pq[i + 1]) by {
        if i < p.len() - 1 {
            assert(has_edge(adj, p[i], p[i + 1]));
        } else if i == p.len() - 1 {
            assert(has_edge(adj, q[0], q[1]));
        } else {
            let j = i - p.len() + 1;
            assert(has_edge(adj, q[j], q[j + 1]));
        }
    }
    assert(walk_between(adj, pq, u, w));
}

/// A walk between two different vertices ends with an edge.
pub proof fn lemma_reaches_last(adj: Seq<Seq<usize>>, u: int, v: int) -> (p: int)
    requires
        reaches(adj, u, v),
        u != v,
    ensures
        reaches(adj, u, p),
        has_edge(adj, p, v),
{
    let w = choose|w: Seq<int>| walk_between(adj, w, u, v);
    let front = w.drop_last();
    let p = w[w.len() - 2];
    assert(has_edge(adj, w[w.len() - 2], w[w.len() - 2 + 1]));
    assert forall|i: int| 0 <= i < front.len() - 1 implies has_edge(
        adj,
        #[trigger] front[i],
        front[i + 1],
    ) by {
        assert(has_edge(adj, w[i], w[i + 1]));
    }
    assert(walk_between(adj, front, u, p));
    p
}

/// In a graph whose successors are vertices, what is reached from a vertex
/// is a vertex.
pub proof fn lemma_reaches_in_range(adj: Seq<Seq<usize>>, u: int, v: int)
    requires
        graph_ok(adj),
        reaches(adj, u, v),
    ensures
        0 <= u < adj.len(),
        0 <= v < adj.len(),
{
    let w = choose|w: Seq<int>| walk_between(adj, w, u, v);
    if w.len() >= 2 {
        let i = w.len() - 2;
        assert(has_edge(adj, w[i], w[i + 1]));
        let k = choose|k: int| 0 <= k < adj[w[i]].len() && #[trigger] adj[w[i]][k] == w[i + 1];
        assert(adj[w[i]][k] < adj.len());
    }
}

} // verus!
