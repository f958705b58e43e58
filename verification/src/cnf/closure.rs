//! What the rules of the components become when each component takes
//! over the rules of the components that lead to it.

use vstd::prelude::*;
use crate::cnf::graph::{
    graph_ok, has_edge, lemma_reaches_in_range, lemma_reaches_last, lemma_reaches_self,
    lemma_reaches_step, reaches,
};
use crate::cnf::rule_order::{rising, rule_lt};
use crate::cnf::CnfRule;
use crate::grammar::Var;
use crate::term::Term;

verus! {

/// The lists of rules, one for each component.
pub open spec fn buckets_view<T>(b: Vec<Vec<CnfRule<T>>>) -> Seq<Seq<CnfRule<T>>> {
    Seq::new(b@.len(), |c: int| b@[c]@)
}

/// Whether `rank` gives every vertex a number that rises along every edge.
pub open spec fn ranked(adj: Seq<Seq<usize>>, rank: Seq<nat>) -> bool {
    &&& rank.len() == adj.len()
    &&& forall|x: int, k: int|
        0 <= x < adj.len() && 0 <= k < adj[x].len() ==> rank[x] < rank[(
        #[trigger] adj[x][k]) as int]
}

/// Whether the graph has no cycle: some ranking rises along every edge.
pub open spec fn acyclic(adj: Seq<Seq<usize>>) -> bool {
    exists|rank: Seq<nat>| ranked(adj, rank)
}

/// Whether the two graphs have the same edges, each any number of times.
pub open spec fn same_edges(adj1: Seq<Seq<usize>>, adj2: Seq<Seq<usize>>) -> bool {
    &&& adj1.len() == adj2.len()
    &&& forall|x: int, y: usize|
        0 <= x < adj1.len() ==> (#[trigger] adj1[x].contains(y) <==> adj2[x].contains(y))
}

/// In graphs with the same edges the same vertices are reached.
pub proof fn lemma_same_edges_reaches(
    adj1: Seq<Seq<usize>>,
    adj2: Seq<Seq<usize>>,
    u: int,
    v: int,
)
    requires
        same_edges(adj1, adj2),
        reaches(adj1, u, v),
    ensures
        reaches(adj2, u, v),
{
    let w = choose|w: Seq<int>| crate::cnf::graph::walk_between(adj1, w, u, v);
    assert forall|i: int| 0 <= i < w.len() - 1 implies has_edge(adj2, #[trigger] w[i], w[i + 1]) by {
        assert(has_edge(adj1, w[i], w[i + 1]));
        let k = choose|k: int| 0 <= k < adj1[w[i]].len() && #[trigger] adj1[w[i]][k] == w[i + 1];
        assert(adj1[w[i]].contains(adj1[w[i]][k]));
        let k2 = choose|k2: int| 0 <= k2 < adj2[w[i]].len() && adj2[w[i]][k2] == adj1[w[i]][k];
        assert(adj2[w[i]][k2] == w[i + 1]);
    }
    assert(crate::cnf::graph::walk_between(adj2, w, u, v));
}

/// Whether no list of successors holds a vertex twice.
pub open spec fn simple(adj: Seq<Seq<usize>>) -> bool {
    forall|x: int| 0 <= x < adj.len() ==> (#[trigger] adj[x]).no_duplicates()
}

/// Whether the rules of each list have the index of the list as their head.
pub open spec fn heads_ok<T>(own: Seq<Seq<CnfRule<T>>>) -> bool {
    forall|c: int, j: int|
        0 <= c < own.len() && 0 <= j < own[c].len() ==> (#[trigger] own[c][j]).head() == c
}

/// Whether `x` is a rule of a component that leads to `c`, with `c` as its
/// head.
pub open spec fn in_closure<T>(
    adj: Seq<Seq<usize>>,
    own: Seq<Seq<CnfRule<T>>>,
    c: int,
    x: CnfRule<T>,
) -> bool {
    exists|c1: int, j: int|
        0 <= c1 < own.len() && 0 <= j < own[c1].len() && reaches(adj, c1, c) && x == (
        #[trigger] own[c1][j]).with_head(Var(c as usize))
}

/// Whether `x` is one of the rules of `v`, or a rule that `v` has from a
/// component that is done and has an edge to `v`.
pub open spec fn fed<T>(
    adj: Seq<Seq<usize>>,
    own: Seq<Seq<CnfRule<T>>>,
    done: Seq<bool>,
    v: int,
    x: CnfRule<T>,
) -> bool {
    own[v].contains(x) || exists|p: int, y: CnfRule<T>|
        0 <= p < adj.len() && done[p] && adj[p].contains(v as usize) && #[trigger] in_closure(
            adj,
            own,
            p,
            y,
        ) && x == y.with_head(Var(v as usize))
}

/// The number of vertices below `upto` that are not done and have an edge
/// to `v`.
pub open spec fn preds_left(adj: Seq<Seq<usize>>, done: Seq<bool>, v: int, upto: int) -> int
    decreases upto,
{
    if upto <= 0 {
        0
    } else {
        preds_left(adj, done, v, upto - 1) + if !done[upto - 1] && adj[upto - 1].contains(
            v as usize,
        ) {
            1int
        } else {
            0int
        }
    }
}

/// The number of entries of `done` that are true.
pub open spec fn count_true(done: Seq<bool>) -> int
    decreases done.len(),
{
    if done.len() == 0 {
        0
    } else {
        count_true(done.drop_last()) + if done.last() {
            1int
        } else {
            0int
        }
    }
}

/// The number of true entries lies between none and all.
pub proof fn lemma_count_true_bounds(done: Seq<bool>)
    ensures
        0 <= count_true(done) <= done.len(),
    decreases done.len(),
{
    if done.len() > 0 {
        lemma_count_true_bounds(done.drop_last());
    }
}

/// Making a false entry true makes the number of true entries one greater.
pub proof fn lemma_count_true_mark(done: Seq<bool>, u: int)
    requires
        0 <= u < done.len(),
        !done[u],
    ensures
        count_true(done.update(u, true)) == count_true(done) + 1,
    decreases done.len(),
{
    let d2 = done.update(u, true);
    if u == done.len() - 1 {
        assert(d2.drop_last() == done.drop_last());
    } else {
        assert(d2.drop_last() == done.drop_last().update(u, true));
        lemma_count_true_mark(done.drop_last(), u);
    }
}

/// The count lies between none and the number of vertices counted over.
pub proof fn lemma_preds_left_bounds(adj: Seq<Seq<usize>>, done: Seq<bool>, v: int, upto: int)
    requires
        0 <= upto,
    ensures
        0 <= preds_left(adj, done, v, upto) <= upto,
    decreases upto,
{
    if upto > 0 {
        lemma_preds_left_bounds(adj, done, v, upto - 1);
    }
}

/// Marking a vertex as done takes it out of the count of those to which it
/// has an edge.
pub proof fn lemma_preds_left_mark(
    adj: Seq<Seq<usize>>,
    done: Seq<bool>,
    u: int,
    v: int,
    upto: int,
)
    requires
        0 <= u < done.len(),
        0 <= upto <= done.len(),
        !done[u],
    ensures
        preds_left(adj, done.update(u, true), v, upto) == preds_left(adj, done, v, upto) - if u
            < upto && adj[u].contains(v as usize) {
            1int
        } else {
            0int
        },
    decreases upto,
{
    if upto > 0 {
        lemma_preds_left_mark(adj, done, u, v, upto - 1);
    }
}

/// The count is zero where every vertex with an edge to `v` is done, and
/// only there.
pub proof fn lemma_preds_left_zero(adj: Seq<Seq<usize>>, done: Seq<bool>, v: int, upto: int)
    requires
        0 <= upto,
    ensures
        preds_left(adj, done, v, upto) == 0 <==> forall|p: int|
            0 <= p < upto && (#[trigger] adj[p]).contains(v as usize) ==> done[p],
    decreases upto,
{
    if upto > 0 {
        lemma_preds_left_zero(adj, done, v, upto - 1);
        lemma_preds_left_bounds(adj, done, v, upto - 1);
        if preds_left(adj, done, v, upto) == 0 {
            assert forall|p: int| 0 <= p < upto && (#[trigger] adj[p]).contains(
                v as usize,
            ) implies done[p] by {
                if p < upto - 1 {
                }
            }
        }
        if forall|p: int| 0 <= p < upto && (#[trigger] adj[p]).contains(v as usize) ==> done[p] {
            assert(adj[upto - 1].contains(v as usize) ==> done[upto - 1]);
        }
    }
}

/// The rules in the closure of `u` are its own and those in the closure of
/// a component with an edge to `u`.
pub proof fn lemma_closure_unfold<T>(
    adj: Seq<Seq<usize>>,
    own: Seq<Seq<CnfRule<T>>>,
    u: int,
    x: CnfRule<T>,
)
    requires
        graph_ok(adj),
        heads_ok(own),
        own.len() == adj.len(),
        adj.len() <= usize::MAX,
        0 <= u < adj.len(),
    ensures
        in_closure(adj, own, u, x) <==> (own[u].contains(x) || exists|p: int, y: CnfRule<T>|
            0 <= p < adj.len() && adj[p].contains(u as usize) && #[trigger] in_closure(
                adj,
                own,
                p,
                y,
            ) && x == y.with_head(Var(u as usize))),
{
    let hu = Var(u as usize);
    if in_closure(adj, own, u, x) {
        let (c1, j) = choose|c1: int, j: int|
            0 <= c1 < own.len() && 0 <= j < own[c1].len() && reaches(adj, c1, u) && x == (
            #[trigger] own[c1][j]).with_head(hu);
        if c1 == u {
            assert(own[u][j].head() == u);
            assert(own[u][j].with_head(hu) == own[u][j]);
            assert(own[u].contains(x));
        } else {
            let p = lemma_reaches_last(adj, c1, u);
            lemma_reaches_in_range(adj, c1, p);
            let y = own[c1][j].with_head(Var(p as usize));
            assert(in_closure(adj, own, p, y));
            let k = choose|k: int| 0 <= k < adj[p].len() && #[trigger] adj[p][k] == u;
            assert(adj[p][k] == u as usize);
            assert(x == y.with_head(hu));
        }
    }
    if own[u].contains(x) {
        let j = choose|j: int| 0 <= j < own[u].len() && own[u][j] == x;
        assert(own[u][j].head() == u);
        lemma_reaches_self(adj, u);
        assert(x == own[u][j].with_head(hu));
    }
    if exists|p: int, y: CnfRule<T>|
        0 <= p < adj.len() && adj[p].contains(u as usize) && #[trigger] in_closure(adj, own, p, y)
            && x == y.with_head(hu) {
        let (p, y) = choose|p: int, y: CnfRule<T>|
            0 <= p < adj.len() && adj[p].contains(u as usize) && #[trigger] in_closure(
                adj,
                own,
                p,
                y,
            ) && x == y.with_head(hu);
        let (c1, j) = choose|c1: int, j: int|
            0 <= c1 < own.len() && 0 <= j < own[c1].len() && reaches(adj, c1, p) && y == (
            #[trigger] own[c1][j]).with_head(Var(p as usize));
        let k = choose|k: int| 0 <= k < adj[p].len() && adj[p][k] == u as usize;
        assert(adj[p][k] == u);
        assert(has_edge(adj, p, u));
        lemma_reaches_step(adj, c1, p, u);
        assert(x == own[c1][j].with_head(hu));
    }
}

/// Whether `a` stands before `b` in the list of all rules: by the head,
/// and among the rules of one head by their order.
pub open spec fn listed_lt<T: Term>(a: CnfRule<T>, b: CnfRule<T>) -> bool {
    a.head() < b.head() || (a.head() == b.head() && rule_lt(a, b))
}

/// Whether each rule of `s` stands before the next.
pub open spec fn listed_rising<T: Term>(s: Seq<CnfRule<T>>) -> bool {
    forall|i: int, j: int| 0 <= i < j < s.len() ==> listed_lt(#[trigger] s[i], #[trigger] s[j])
}

/// Whether the list `b` of component `v` is final: the closure of `v`, in
/// rising order.
pub open spec fn bucket_done<T: Term>(
    adj: Seq<Seq<usize>>,
    own: Seq<Seq<CnfRule<T>>>,
    v: int,
    b: Seq<CnfRule<T>>,
) -> bool {
    &&& rising(b)
    &&& forall|x: CnfRule<T>| #[trigger] b.contains(x) <==> in_closure(adj, own, v, x)
}

/// Whether the list `b` of component `v` holds what it has been given.
pub open spec fn bucket_fed<T>(
    adj: Seq<Seq<usize>>,
    own: Seq<Seq<CnfRule<T>>>,
    done: Seq<bool>,
    v: int,
    b: Seq<CnfRule<T>>,
) -> bool {
    forall|x: CnfRule<T>| #[trigger] b.contains(x) <==> fed(adj, own, done, v, x)
}

/// What holds while the components are worked off in the order in which
/// they become ready.
pub open spec fn kahn_inv<T: Term>(
    adj: Seq<Seq<usize>>,
    own: Seq<Seq<CnfRule<T>>>,
    done: Seq<bool>,
    degree: Seq<usize>,
    buckets: Seq<Seq<CnfRule<T>>>,
    queue: Seq<usize>,
) -> bool {
    let n = adj.len();
    &&& done.len() == n
    &&& degree.len() == n
    &&& buckets.len() == n
    &&& forall|v: int| 0 <= v < n ==> (#[trigger] degree[v]) == preds_left(adj, done, v, n as int)
    &&& forall|v: int| 0 <= v < n && done[v] ==> (#[trigger] degree[v]) == 0
    &&& forall|v: int|
        0 <= v < n && done[v] ==> bucket_done(adj, own, v, #[trigger] buckets[v])
    &&& forall|v: int|
        0 <= v < n && !done[v] ==> bucket_fed(adj, own, done, v, #[trigger] buckets[v])
    &&& forall|k: int|
        0 <= k < queue.len() ==> (#[trigger] queue[k]) < n && !done[queue[k] as int]
            && degree[queue[k] as int] == 0
    &&& queue.no_duplicates()
    &&& forall|v: int|
        0 <= v < n && (#[trigger] degree[v]) == 0 && !done[v] ==> queue.contains(v as usize)
}

/// What holds while the successors of `u`, which has just been done, are
/// given its rules: the first `k` of them have been.
pub open spec fn mid_inv<T: Term>(
    adj: Seq<Seq<usize>>,
    own: Seq<Seq<CnfRule<T>>>,
    done: Seq<bool>,
    u: int,
    k: int,
    degree: Seq<usize>,
    buckets: Seq<Seq<CnfRule<T>>>,
    queue: Seq<usize>,
) -> bool {
    let n = adj.len();
    let done2 = done.update(u, true);
    let given = adj[u].take(k);
    &&& done.len() == n
    &&& degree.len() == n
    &&& buckets.len() == n
    &&& forall|v: int|
        0 <= v < n ==> (#[trigger] degree[v]) == preds_left(adj, done, v, n as int) - if given.contains(
            v as usize,
        ) {
            1int
        } else {
            0int
        }
    &&& forall|v: int| 0 <= v < n && done2[v] ==> (#[trigger] degree[v]) == 0
    &&& forall|v: int|
        0 <= v < n && done2[v] ==> bucket_done(adj, own, v, #[trigger] buckets[v])
    &&& forall|v: int|
        0 <= v < n && !done2[v] ==> bucket_fed(
            adj,
            own,
            if given.contains(v as usize) {
                done2
            } else {
                done
            },
            v,
            #[trigger] buckets[v],
        )
    &&& forall|j: int|
        0 <= j < queue.len() ==> (#[trigger] queue[j]) < n && !done2[queue[j] as int]
            && degree[queue[j] as int] == 0
    &&& queue.no_duplicates()
    &&& forall|v: int|
        0 <= v < n && (#[trigger] degree[v]) == 0 && !done2[v] ==> queue.contains(v as usize)
}

} // verus!
