//! Each step of the search keeps what holds of it.

use vstd::prelude::*;
use crate::cnf::graph::{
    has_edge, lemma_edge_reaches, lemma_reaches_self, lemma_reaches_trans, reaches,
};
use crate::cnf::search::{pending_of, Search};
use crate::counting::lemma_distinct_codes_bounded;

verus! {

/// The frames of a search that is in order ask for no less than no steps.
pub proof fn lemma_pending_positive(s: Search, k: int)
    requires
        s.inv(),
        0 <= k <= s.frames.len(),
    ensures
        pending_of(s.adj, s.frames.take(k)) >= 0,
    decreases k,
{
    if k > 0 {
        lemma_pending_positive(s, k - 1);
        assert(s.frames.take(k).drop_last() == s.frames.take(k - 1));
        assert(s.frame_ok(k - 1));
    }
}

/// Dealing with an edge is one step less to go.
pub proof fn lemma_pending_relax(s: Search)
    requires
        s.frames.len() > 0,
    ensures
        pending_of(s.adj, s.relax().frames) == pending_of(s.adj, s.frames) - 1,
{
    assert(s.relax().frames.drop_last() == s.frames.drop_last());
}

/// The search before it has begun is in order.
pub proof fn lemma_initial_inv(adj: Seq<Seq<usize>>)
    requires
        crate::cnf::graph::graph_ok(adj),
    ensures
        Search::initial(adj).inv(),
{
    let s = Search::initial(adj);
    assert forall|v: int| 0 <= v < s.n() implies #[trigger] s.vertex_ok(v) by {}
    assert forall|u: int, e: int| 0 <= u < s.n() && 0 <= e < s.adj[u].len() implies #[trigger] s.edge_ok(
        u,
        e,
    ) by {}
}

/// As long as a vertex has not been discovered, fewer vertices than there
/// are have been.
pub proof fn lemma_time_left(s: Search, v: int)
    requires
        s.inv(),
        0 <= v < s.n(),
        s.unvisited(v),
    ensures
        s.order.len() < s.n(),
{
    assert forall|i: int, j: int|
        0 <= i < s.order.len() && 0 <= j < s.order.len() && i != j implies s.order[i]
        != s.order[j] by {
        assert(s.order_ok(i));
        assert(s.order_ok(j));
    }
    assert forall|i: int| 0 <= i < s.order.len() implies 0 <= #[trigger] s.order[i] < s.n() by {
        assert(s.order_ok(i));
    }
    lemma_distinct_codes_bounded(s.order, s.n());
    let o = s.order.push(v);
    assert forall|i: int, j: int| 0 <= i < o.len() && 0 <= j < o.len() && i != j implies o[i]
        != o[j] by {
        if i < s.order.len() {
            assert(s.order_ok(i));
        }
        if j < s.order.len() {
            assert(s.order_ok(j));
        }
    }
    assert forall|i: int| 0 <= i < o.len() implies 0 <= #[trigger] o[i] < s.n() by {
        if i < s.order.len() {
            assert(s.order_ok(i));
        }
    }
    lemma_distinct_codes_bounded(o, s.n());
}

/// Discovering a vertex keeps the search in order.
pub proof fn lemma_visit_inv(s: Search, v: int)
    requires
        s.inv(),
        0 <= v < s.n(),
        s.unvisited(v),
        s.frames.len() > 0 ==> {
            let top = s.frames.last();
            0 <= top.next < s.adj[top.node].len() && s.adj[top.node][top.next] == v
        },
    ensures
        s.visit(v).inv(),
{
    let s2 = s.visit(v);
    let t = s.order.len() as int;
    let n = s.n();
    lemma_time_left(s, v);
    lemma_reaches_self(s.adj, v);
    assert(s.vertex_ok(v));
    if s.frames.len() > 0 {
        assert(s.frame_ok(s.frames.len() - 1));
        assert(s.frame_ok(0));
    }
    // status of the other vertices is unchanged
    assert forall|x: int| 0 <= x < n && x != v implies s2.stacked(x) == s.stacked(x)
        && s2.assigned(x) == s.assigned(x) && s2.unvisited(x) == s.unvisited(x) by {}
    assert(s2.stacked(v) && !s.stacked(v) && !s.assigned(v));
    assert forall|x: int| 0 <= x < n implies #[trigger] s2.vertex_ok(x) by {
        assert(s.vertex_ok(x));
        if x != v {
            if s.stacked(x) {
                let y = s.target[x];
                assert(s.vertex_ok(y));
                assert(y != v);
            }
        }
    }
    assert forall|i: int| 0 <= i < s2.order.len() implies #[trigger] s2.order_ok(i) by {
        if i < t {
            assert(s.order_ok(i));
        }
    }
    assert forall|k: int| 0 <= k < s2.stack.len() implies #[trigger] s2.stack_ok(k) by {
        if k < s.stack.len() {
            assert(s.stack_ok(k));
        }
    }
    assert forall|a: int, b: int| 0 <= a < n && 0 <= b < n implies #[trigger] s2.sorted_ok(
        a,
        b,
    ) by {
        assert(s.sorted_ok(a, b));
        assert(s.vertex_ok(a));
        assert(s.vertex_ok(b));
    }
    assert forall|k: int| 0 <= k < s2.frames.len() implies #[trigger] s2.frame_ok(k) by {
        if k < s.frames.len() {
            assert(s.frame_ok(k));
            assert(s.vertex_ok(s.frames[k].node));
        }
    }
    assert forall|u: int, e: int| 0 <= u < n && 0 <= e < s.adj[u].len() implies #[trigger] s2.edge_ok(
        u,
        e,
    ) by {
        assert(s.edge_ok(u, e));
        assert(s.vertex_ok(u));
        let x = s.adj[u][e] as int;
        assert(0 <= x < n);
        assert(s.vertex_ok(x));
        if u != v && s.stacked(u) && s.gray[u] != -1 {
            assert(s.frame_ok(s.gray[u]));
        }
    }
    assert forall|k: int, y: int| 0 <= k < s2.frames.len() && 0 <= y < n implies #[trigger] s2.region_ok(
        k,
        y,
    ) by {
        assert(s.vertex_ok(y));
        if k < s.frames.len() {
            assert(s.region_ok(k, y));
            assert(s.frame_ok(k));
            if k + 1 < s.frames.len() {
                assert(s.frame_ok(k + 1));
                assert(s.vertex_ok(s.frames[k + 1].node));
                assert(s2.frames[k + 1] == s.frames[k + 1]);
            }
            assert(s2.frames[k] == s.frames[k]);
        }
    }
    assert forall|a: int, b: int| 0 <= a < n && 0 <= b < n implies #[trigger] s2.pair_ok(a, b) by {
        assert(s.pair_ok(a, b));
    }
    if s.frames.len() > 0 {
        assert(s2.stack[0] == s.stack[0]);
        assert(s2.frames[0] == s.frames[0]);
    }
}

/// Dealing with an edge that leads to a discovered vertex keeps the search
/// in order.
pub proof fn lemma_relax_inv(s: Search)
    requires
        s.inv(),
        s.frames.len() > 0,
        0 <= s.frames.last().next < s.adj[s.frames.last().node].len(),
        !s.unvisited(s.adj[s.frames.last().node][s.frames.last().next] as int),
    ensures
        s.relax().inv(),
{
    let s2 = s.relax();
    let n = s.n();
    let last = s.frames.len() - 1;
    let u = s.frames.last().node;
    let e = s.frames.last().next;
    let x = s.adj[u][e] as int;
    assert(s.frame_ok(last));
    assert(s.vertex_ok(u));
    assert(0 <= x < n);
    assert(s.vertex_ok(x));
    assert(has_edge(s.adj, u, x));
    assert(s.low[x] < s.low[u] ==> s.stacked(x));
    assert forall|y: int| 0 <= y < n implies s2.stacked(y) == s.stacked(y) && s2.assigned(y)
        == s.assigned(y) && s2.unvisited(y) == s.unvisited(y) by {}
    assert forall|y: int| 0 <= y < n implies #[trigger] s2.vertex_ok(y) by {
        assert(s.vertex_ok(y));
        if s.stacked(y) {
            if y == u && s.low[x] < s.low[u] {
                lemma_edge_reaches(s.adj, u, x);
                lemma_reaches_trans(s.adj, u, x, s.target[x]);
            }
            if s.gray[y] != -1 {
                assert(s2.frames[s.gray[y]].node == s.frames[s.gray[y]].node);
            }
        }
    }
    assert forall|i: int| 0 <= i < s2.order.len() implies #[trigger] s2.order_ok(i) by {
        assert(s.order_ok(i));
    }
    assert forall|k: int| 0 <= k < s2.stack.len() implies #[trigger] s2.stack_ok(k) by {
        assert(s.stack_ok(k));
    }
    assert forall|a: int, b: int| 0 <= a < n && 0 <= b < n implies #[trigger] s2.sorted_ok(
        a,
        b,
    ) by {
        assert(s.sorted_ok(a, b));
    }
    assert forall|k: int| 0 <= k < s2.frames.len() implies #[trigger] s2.frame_ok(k) by {
        assert(s.frame_ok(k));
    }
    assert forall|a: int, i: int| 0 <= a < n && 0 <= i < s.adj[a].len() implies #[trigger] s2.edge_ok(
        a,
        i,
    ) by {
        assert(s.edge_ok(a, i));
        assert(s.vertex_ok(a));
        let y = s.adj[a][i] as int;
        assert(0 <= y < n);
        if s.stacked(a) && s.gray[a] != -1 {
            assert(s.frame_ok(s.gray[a]));
        }
    }
    assert forall|k: int, y: int| 0 <= k < s2.frames.len() && 0 <= y < n implies #[trigger] s2.region_ok(
        k,
        y,
    ) by {
        assert(s.region_ok(k, y));
        assert(s.frame_ok(k));
    }
    assert forall|a: int, b: int| 0 <= a < n && 0 <= b < n implies #[trigger] s2.pair_ok(a, b) by {
        assert(s.pair_ok(a, b));
    }
    assert(s.frame_ok(0));
}

/// A vertex that is left without closing a component was reached from
/// another frame.
pub proof fn lemma_retreat_has_parent(s: Search)
    requires
        s.inv(),
        s.frames.len() > 0,
        s.low[s.frames.last().node] < s.tin[s.frames.last().node],
    ensures
        s.frames.len() >= 2,
{
    let c = s.frames.last().node;
    assert(s.frame_ok(s.frames.len() - 1));
    assert(s.vertex_ok(c));
    if s.frames.len() == 1 {
        let z = s.target[c];
        assert(s.vertex_ok(z));
        assert(s.sorted_ok(z, c));
        assert(s.stack_ok(0));
    }
}

/// Leaving a vertex that closes no component, and dealing with the edge
/// that led to it, keeps the search in order.
pub proof fn lemma_retreat_inv(s: Search)
    requires
        s.inv(),
        s.frames.len() > 0,
        s.frames.last().next == s.adj[s.frames.last().node].len(),
        s.low[s.frames.last().node] < s.tin[s.frames.last().node],
    ensures
        s.frames.len() >= 2,
        s.retreat().relax().inv(),
{
    lemma_retreat_has_parent(s);
    let s1 = s.retreat();
    let s2 = s1.relax();
    let n = s.n();
    let last = s.frames.len() - 1;
    let c = s.frames.last().node;
    let p = s.frames[last - 1].node;
    let pe = s.frames[last - 1].next;
    assert(s.frame_ok(last));
    assert(s.frame_ok(last - 1));
    assert(s.vertex_ok(c));
    assert(s.vertex_ok(p));
    assert(s1.frames.last() == s.frames[last - 1]);
    assert(s.adj[p][pe] == c);
    assert(has_edge(s.adj, p, c));
    lemma_edge_reaches(s.adj, p, c);
    assert(p != c);
    assert forall|y: int| 0 <= y < n implies s2.stacked(y) == s.stacked(y) && s2.assigned(y)
        == s.assigned(y) && s2.unvisited(y) == s.unvisited(y) by {}
    assert forall|y: int| 0 <= y < n implies #[trigger] s2.vertex_ok(y) by {
        assert(s.vertex_ok(y));
        if s.stacked(y) {
            if y == p && s.low[c] < s.low[p] {
                lemma_reaches_trans(s.adj, p, c, s.target[c]);
            }
            if s.gray[y] != -1 && y != c {
                assert(s.gray[y] != last);
                assert(s2.frames[s.gray[y]].node == s.frames[s.gray[y]].node);
            }
        }
    }
    assert forall|i: int| 0 <= i < s2.order.len() implies #[trigger] s2.order_ok(i) by {
        assert(s.order_ok(i));
    }
    assert forall|k: int| 0 <= k < s2.stack.len() implies #[trigger] s2.stack_ok(k) by {
        assert(s.stack_ok(k));
    }
    assert forall|a: int, b: int| 0 <= a < n && 0 <= b < n implies #[trigger] s2.sorted_ok(
        a,
        b,
    ) by {
        assert(s.sorted_ok(a, b));
    }
    assert forall|k: int| 0 <= k < s2.frames.len() implies #[trigger] s2.frame_ok(k) by {
        assert(s.frame_ok(k));
        if k + 1 < s2.frames.len() {
            assert(s2.frames[k + 1].node == s.frames[k + 1].node);
        }
    }
    assert forall|a: int, i: int| 0 <= a < n && 0 <= i < s.adj[a].len() implies #[trigger] s2.edge_ok(
        a,
        i,
    ) by {
        assert(s.edge_ok(a, i));
        assert(s.vertex_ok(a));
        let y = s.adj[a][i] as int;
        assert(0 <= y < n);
        if s.stacked(a) && s.gray[a] != -1 {
            assert(s.frame_ok(s.gray[a]));
        }
    }
    assert forall|k: int, y: int| 0 <= k < s2.frames.len() && 0 <= y < n implies #[trigger] s2.region_ok(
        k,
        y,
    ) by {
        assert(s.region_ok(k, y));
        assert(s.region_ok(last, y));
        assert(s.frame_ok(k));
        assert(s.vertex_ok(y));
        assert(s2.frames[k].node == s.frames[k].node);
        if k + 1 < s2.frames.len() {
            assert(s2.frames[k + 1].node == s.frames[k + 1].node);
            assert(s.frame_ok(k + 1));
        }
        if k == last - 1 && s2.in_region(k, y) {
            if s.tin[y] > s.tin[c] {
                lemma_reaches_trans(s.adj, p, c, y);
            }
        }
    }
    assert forall|a: int, b: int| 0 <= a < n && 0 <= b < n implies #[trigger] s2.pair_ok(a, b) by {
        assert(s.pair_ok(a, b));
    }
    assert(s.frame_ok(0));
    assert(s2.frames[0].node == s.frames[0].node);
}

/// Whether the top frame's vertex closes a component.
pub open spec fn at_root(s: Search) -> bool {
    &&& s.inv()
    &&& s.frames.len() > 0
    &&& s.frames.last().next == s.adj[s.frames.last().node].len()
    &&& s.low[s.frames.last().node] == s.tin[s.frames.last().node]
}

/// Whether `y` is on the stack at or above the top frame's vertex.
pub open spec fn above_root(s: Search, y: int) -> bool {
    s.stacked(y) && s.pos[y] >= s.pos[s.frames.last().node]
}

/// The vertices above the root were discovered after it, or are it.
pub proof fn lemma_above_root(s: Search, y: int)
    requires
        at_root(s),
        0 <= y < s.n(),
        s.stacked(y),
    ensures
        above_root(s, y) <==> s.tin[y] >= s.tin[s.frames.last().node],
        above_root(s, y) && y != s.frames.last().node ==> s.in_region(s.frames.len() - 1, y),
        above_root(s, y) ==> s.low[y] >= s.tin[s.frames.last().node] && reaches(
            s.adj,
            s.frames.last().node,
            y,
        ),
        above_root(s, y) && y != s.frames.last().node ==> s.gray[y] == -1,
{
    let r = s.frames.last().node;
    let last = s.frames.len() - 1;
    assert(s.frame_ok(last));
    assert(s.vertex_ok(r));
    assert(s.vertex_ok(y));
    assert(s.sorted_ok(y, r));
    assert(s.sorted_ok(r, y));
    assert(s.region_ok(last, y));
    lemma_reaches_self(s.adj, r);
}

/// Every vertex above the root reaches the root.
pub proof fn lemma_climb(s: Search, y: int)
    requires
        at_root(s),
        0 <= y < s.n(),
        above_root(s, y),
    ensures
        reaches(s.adj, y, s.frames.last().node),
    decreases s.tin[y],
{
    let r = s.frames.last().node;
    lemma_above_root(s, y);
    assert(s.vertex_ok(y));
    if y == r {
        lemma_reaches_self(s.adj, r);
    } else {
        let z = s.target[y];
        assert(s.vertex_ok(z));
        lemma_above_root(s, z);
        lemma_climb(s, z);
        lemma_reaches_trans(s.adj, y, z, r);
    }
}

/// Taking a component off the stack keeps the search in order.
pub proof fn lemma_close_inv(s: Search)
    requires
        at_root(s),
    ensures
        s.close().inv(),
{
    let s2 = s.close();
    let n = s.n();
    let last = s.frames.len() - 1;
    let r = s.frames.last().node;
    let cut = s.pos[r];
    assert(s.frame_ok(last));
    assert(s.frame_ok(0));
    assert(s.vertex_ok(r));
    assert forall|y: int| 0 <= y < n implies (above_root(s, y) ==> s2.assigned(y)
        && !s2.stacked(y)) && (!above_root(s, y) ==> s2.stacked(y) == s.stacked(y)
        && s2.assigned(y) == s.assigned(y)) && s2.unvisited(y) == s.unvisited(y) by {
        assert(s.vertex_ok(y));
    }
    assert forall|y: int| 0 <= y < n implies #[trigger] s2.vertex_ok(y) by {
        assert(s.vertex_ok(y));
        if s.stacked(y) {
            lemma_above_root(s, y);
            if !above_root(s, y) {
                let z = s.target[y];
                assert(s.vertex_ok(z));
                lemma_above_root(s, z);
                if s.gray[y] != -1 {
                    assert(s.gray[y] != last);
                }
            }
        }
    }
    assert forall|i: int| 0 <= i < s2.order.len() implies #[trigger] s2.order_ok(i) by {
        assert(s.order_ok(i));
    }
    assert forall|k: int| 0 <= k < s2.stack.len() implies #[trigger] s2.stack_ok(k) by {
        assert(s.stack_ok(k));
    }
    assert forall|a: int, b: int| 0 <= a < n && 0 <= b < n implies #[trigger] s2.sorted_ok(
        a,
        b,
    ) by {
        assert(s.sorted_ok(a, b));
    }
    assert forall|k: int| 0 <= k < s2.frames.len() implies #[trigger] s2.frame_ok(k) by {
        assert(s.frame_ok(k));
        let u = s.frames[k].node;
        lemma_above_root(s, u);
        if k + 1 < s2.frames.len() {
            assert(s2.frames[k + 1].node == s.frames[k + 1].node);
        }
    }
    assert forall|a: int, i: int| 0 <= a < n && 0 <= i < s.adj[a].len() implies #[trigger] s2.edge_ok(
        a,
        i,
    ) by {
        assert(s.edge_ok(a, i));
        assert(s.vertex_ok(a));
        let x = s.adj[a][i] as int;
        assert(0 <= x < n);
        assert(s.vertex_ok(x));
        if s.stacked(a) {
            lemma_above_root(s, a);
            if s.gray[a] != -1 {
                assert(s.frame_ok(s.gray[a]));
            }
        }
        if s.stacked(x) {
            lemma_above_root(s, x);
        }
    }
    assert forall|k: int, y: int| 0 <= k < s2.frames.len() && 0 <= y < n implies #[trigger] s2.region_ok(
        k,
        y,
    ) by {
        assert(s.region_ok(k, y));
        assert(s.frame_ok(k));
        assert(s.vertex_ok(y));
        assert(s2.frames[k].node == s.frames[k].node);
        lemma_above_root(s, s.frames[k].node);
        if s.stacked(y) {
            lemma_above_root(s, y);
        }
        if k + 1 < s2.frames.len() {
            assert(s2.frames[k + 1].node == s.frames[k + 1].node);
        }
    }
    assert forall|a: int, b: int| 0 <= a < n && 0 <= b < n implies #[trigger] s2.pair_ok(a, b) by {
        assert(s.pair_ok(a, b));
        assert(s.vertex_ok(a));
        assert(s.vertex_ok(b));
        if s2.assigned(a) && s2.assigned(b) && s2.comp[a] == s2.comp[b] {
            if above_root(s, a) {
                lemma_climb(s, a);
                lemma_above_root(s, b);
                lemma_reaches_trans(s.adj, a, r, b);
            }
        }
    }
    assert(s.stack_ok(0));
    if s2.frames.len() > 0 {
        assert(s2.frames[0].node == s.frames[0].node);
        assert(s.vertex_ok(s.frames[0].node));
    }
}

} // verus!
