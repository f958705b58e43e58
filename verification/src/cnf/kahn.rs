//! Working the components off in the order in which they become ready.

use vstd::prelude::*;
use crate::cnf::closure::{
    bucket_done, bucket_fed, fed, heads_ok, in_closure, kahn_inv, lemma_closure_unfold,
    lemma_preds_left_bounds, lemma_preds_left_mark, lemma_preds_left_zero, mid_inv, preds_left,
    acyclic, lemma_same_edges_reaches, ranked, same_edges, simple,
};
use crate::cnf::closure::{
    buckets_view, count_true, lemma_count_true_bounds, lemma_count_true_mark, listed_lt,
    listed_rising,
};
use crate::cnf::graph::{adjacency, graph_ok, reaches};
use crate::cnf::quotient::list_contains;
use crate::cnf::rule_order::{rising, rule_with_head, sort_dedup};
use std::collections::VecDeque;
use crate::cnf::CnfRule;
use crate::grammar::Var;
use crate::term::Term;

verus! {

/// Whether the graph of the components and their rules can be worked off:
/// the successors are components, the graph has no cycle, and the rules
/// of each list have the index of the list as their head.
pub open spec fn kahn_input<T>(adj: Seq<Seq<usize>>, own: Seq<Seq<CnfRule<T>>>) -> bool {
    &&& graph_ok(adj)
    &&& acyclic(adj)
    &&& heads_ok(own)
    &&& own.len() == adj.len()
}

/// Whether the graph of the components, with each edge once, and their
/// rules are as the working off expects them.
pub open spec fn kahn_ready<T>(adj: Seq<Seq<usize>>, own: Seq<Seq<CnfRule<T>>>) -> bool {
    &&& graph_ok(adj)
    &&& acyclic(adj)
    &&& simple(adj)
    &&& heads_ok(own)
    &&& own.len() == adj.len()
    &&& adj.len() <= usize::MAX
}

/// Taking the first component off the queue and putting its rules in
/// order begins the handing on of its rules.
pub proof fn lemma_kahn_start<T: Term>(
    adj: Seq<Seq<usize>>,
    own: Seq<Seq<CnfRule<T>>>,
    done: Seq<bool>,
    degree: Seq<usize>,
    buckets: Seq<Seq<CnfRule<T>>>,
    queue: Seq<usize>,
    sorted: Seq<CnfRule<T>>,
)
    requires
        kahn_ready(adj, own),
        kahn_inv(adj, own, done, degree, buckets, queue),
        queue.len() > 0,
        rising(sorted),
        forall|x: CnfRule<T>| #[trigger] sorted.contains(x) <==> buckets[queue[0] as int].contains(x),
    ensures
        mid_inv(
            adj,
            own,
            done,
            queue[0] as int,
            0,
            degree,
            buckets.update(queue[0] as int, sorted),
            queue.subrange(1, queue.len() as int),
        ),
{
    let n = adj.len();
    let u = queue[0] as int;
    let done2 = done.update(u, true);
    let buckets2 = buckets.update(u, sorted);
    let queue2 = queue.subrange(1, queue.len() as int);
    assert(adj[u].take(0) =~= Seq::<usize>::empty());
    let given = adj[u].take(0);
    assert(given.len() == 0);
    assert(bucket_fed(adj, own, done, u, buckets[u]));
    lemma_preds_left_zero(adj, done, u, n as int);
    assert forall|x: CnfRule<T>| #[trigger] sorted.contains(x) <==> in_closure(adj, own, u, x) by {
        lemma_closure_unfold(adj, own, u, x);
        assert(buckets[u].contains(x) <==> fed(adj, own, done, u, x));
        if fed(adj, own, done, u, x) && !own[u].contains(x) {
            let (p, y) = choose|p: int, y: CnfRule<T>|
                0 <= p < adj.len() && done[p] && adj[p].contains(u as usize) && #[trigger] in_closure(
                    adj,
                    own,
                    p,
                    y,
                ) && x == y.with_head(Var(u as usize));
            assert(in_closure(adj, own, p, y));
        }
        if in_closure(adj, own, u, x) && !own[u].contains(x) {
            let (p, y) = choose|p: int, y: CnfRule<T>|
                0 <= p < adj.len() && adj[p].contains(u as usize) && #[trigger] in_closure(
                    adj,
                    own,
                    p,
                    y,
                ) && x == y.with_head(Var(u as usize));
            assert(done[p]);
            assert(in_closure(adj, own, p, y));
        }
    }
    assert forall|v: int| 0 <= v < n && done2[v] implies bucket_done(
        adj,
        own,
        v,
        #[trigger] buckets2[v],
    ) by {
        if v != u {
            assert(bucket_done(adj, own, v, buckets[v]));
        }
    }
    assert forall|v: int| 0 <= v < n && !done2[v] implies bucket_fed(
        adj,
        own,
        if given.contains(v as usize) {
            done2
        } else {
            done
        },
        v,
        #[trigger] buckets2[v],
    ) by {
        assert(bucket_fed(adj, own, done, v, buckets[v]));
    }
    assert forall|j: int| 0 <= j < queue2.len() implies (#[trigger] queue2[j]) < n
        && !done2[queue2[j] as int] && degree[queue2[j] as int] == 0 by {
        assert(queue2[j] == queue[j + 1]);
    }
    assert forall|v: int| 0 <= v < n && (#[trigger] degree[v]) == 0 && !done2[v] implies queue2.contains(
        v as usize,
    ) by {
        assert(queue.contains(v as usize));
        let i = choose|i: int| 0 <= i < queue.len() && queue[i] == v as usize;
        assert(queue2[i - 1] == v as usize);
    }
    assert forall|v: int| 0 <= v < n implies (#[trigger] degree[v]) == preds_left(
        adj,
        done,
        v,
        n as int,
    ) - if given.contains(v as usize) {
        1int
    } else {
        0int
    } by {}
}

/// What the list of `v` holds after it has been given the rules of `u`.
pub open spec fn given_rules<T>(
    before: Seq<CnfRule<T>>,
    from: Seq<CnfRule<T>>,
    v: int,
    after: Seq<CnfRule<T>>,
) -> bool {
    forall|x: CnfRule<T>|
        #[trigger] after.contains(x) <==> (before.contains(x) || exists|j: int|
            0 <= j < from.len() && x == (#[trigger] from[j]).with_head(Var(v as usize)))
}

/// The next successor of `u` is not done and still counts `u`.
pub proof fn lemma_kahn_next<T: Term>(
    adj: Seq<Seq<usize>>,
    own: Seq<Seq<CnfRule<T>>>,
    done: Seq<bool>,
    u: int,
    k: int,
    degree: Seq<usize>,
    buckets: Seq<Seq<CnfRule<T>>>,
    queue: Seq<usize>,
)
    requires
        kahn_ready(adj, own),
        0 <= u < adj.len(),
        !done[u],
        0 <= k < adj[u].len(),
        mid_inv(adj, own, done, u, k, degree, buckets, queue),
    ensures
        adj[u][k] != u,
        adj[u][k] < adj.len(),
        degree[adj[u][k] as int] >= 1,
        !done[adj[u][k] as int],
        !adj[u].take(k).contains(adj[u][k]),
        !queue.contains(adj[u][k]),
{
    let v = adj[u][k] as int;
    let n = adj.len() as int;
    let given = adj[u].take(k);
    let rank = choose|rank: Seq<nat>| ranked(adj, rank);
    assert(rank[u] < rank[adj[u][k] as int]);
    assert(adj[u].no_duplicates());
    if given.contains(v as usize) {
        let i = choose|i: int| 0 <= i < given.len() && given[i] == v as usize;
        assert(adj[u][i] == adj[u][k]);
    }
    lemma_preds_left_zero(adj, done, v, n);
    lemma_preds_left_bounds(adj, done, v, n);
    assert(adj[u].contains(v as usize));
    assert(degree[v] == preds_left(adj, done, v, n));
    let done2 = done.update(u, true);
    if done[v] {
        assert(done2[v]);
    }
    if queue.contains(v as usize) {
        let i = choose|i: int| 0 <= i < queue.len() && queue[i] == v as usize;
        assert(degree[queue[i] as int] == 0);
    }
}

/// Giving the next successor of `u` the rules of `u` goes one step on.
pub proof fn lemma_kahn_step<T: Term>(
    adj: Seq<Seq<usize>>,
    own: Seq<Seq<CnfRule<T>>>,
    done: Seq<bool>,
    u: int,
    k: int,
    degree: Seq<usize>,
    buckets: Seq<Seq<CnfRule<T>>>,
    queue: Seq<usize>,
    after: Seq<CnfRule<T>>,
)
    requires
        kahn_ready(adj, own),
        0 <= u < adj.len(),
        !done[u],
        0 <= k < adj[u].len(),
        mid_inv(adj, own, done, u, k, degree, buckets, queue),
        given_rules(buckets[adj[u][k] as int], buckets[u], adj[u][k] as int, after),
    ensures
        degree[adj[u][k] as int] >= 1,
        mid_inv(
            adj,
            own,
            done,
            u,
            k + 1,
            degree.update(adj[u][k] as int, (degree[adj[u][k] as int] - 1) as usize),
            buckets.update(adj[u][k] as int, after),
            if degree[adj[u][k] as int] == 1 {
                queue.push(adj[u][k])
            } else {
                queue
            },
        ),
{
    lemma_kahn_next(adj, own, done, u, k, degree, buckets, queue);
    let n = adj.len();
    let v = adj[u][k] as int;
    let done2 = done.update(u, true);
    let given = adj[u].take(k);
    let given2 = adj[u].take(k + 1);
    let degree2 = degree.update(v, (degree[v] - 1) as usize);
    let buckets2 = buckets.update(v, after);
    let queue2 = if degree[v] == 1 {
        queue.push(v as usize)
    } else {
        queue
    };
    assert(given2 == given.push(v as usize));
    assert forall|y: usize| #[trigger] given2.contains(y) <==> (given.contains(y) || y
        == v as usize) by {
        if given.contains(y) {
            let i = choose|i: int| 0 <= i < given.len() && given[i] == y;
            assert(given2[i] == y);
        }
        if given2.contains(y) {
            let i = choose|i: int| 0 <= i < given2.len() && given2[i] == y;
            if i < k {
                assert(given[i] == y);
            }
        }
        assert(given2[k] == v as usize);
    }
    assert forall|w: int| 0 <= w < n implies (#[trigger] degree2[w]) == preds_left(
        adj,
        done,
        w,
        n as int,
    ) - if given2.contains(w as usize) {
        1int
    } else {
        0int
    } by {
        assert(degree[w] == preds_left(adj, done, w, n as int) - if given.contains(w as usize) {
            1int
        } else {
            0int
        });
    }
    assert forall|w: int| 0 <= w < n && done2[w] implies bucket_done(
        adj,
        own,
        w,
        #[trigger] buckets2[w],
    ) by {
        assert(bucket_done(adj, own, w, buckets[w]));
    }
    assert(bucket_done(adj, own, u, buckets[u]));
    assert(bucket_fed(adj, own, done, v, buckets[v]));
    assert forall|w: int| 0 <= w < n && !done2[w] implies bucket_fed(
        adj,
        own,
        if given2.contains(w as usize) {
            done2
        } else {
            done
        },
        w,
        #[trigger] buckets2[w],
    ) by {
        if w == v {
            assert forall|x: CnfRule<T>| #[trigger] after.contains(x) <==> fed(
                adj,
                own,
                done2,
                v,
                x,
            ) by {
                assert(buckets[v].contains(x) <==> fed(adj, own, done, v, x));
                if fed(adj, own, done, v, x) && !own[v].contains(x) {
                    let (p, y) = choose|p: int, y: CnfRule<T>|
                        0 <= p < adj.len() && done[p] && adj[p].contains(v as usize)
                            && #[trigger] in_closure(adj, own, p, y) && x == y.with_head(
                            Var(v as usize),
                        );
                    assert(done2[p] && in_closure(adj, own, p, y));
                }
                if exists|j: int|
                    0 <= j < buckets[u].len() && x == (#[trigger] buckets[u][j]).with_head(
                        Var(v as usize),
                    ) {
                    let j = choose|j: int|
                        0 <= j < buckets[u].len() && x == (#[trigger] buckets[u][j]).with_head(
                            Var(v as usize),
                        );
                    let y = buckets[u][j];
                    assert(buckets[u].contains(y));
                    assert(in_closure(adj, own, u, y));
                    assert(done2[u] && adj[u].contains(v as usize));
                }
                if fed(adj, own, done2, v, x) && !own[v].contains(x) {
                    let (p, y) = choose|p: int, y: CnfRule<T>|
                        0 <= p < adj.len() && done2[p] && adj[p].contains(v as usize)
                            && #[trigger] in_closure(adj, own, p, y) && x == y.with_head(
                            Var(v as usize),
                        );
                    if p == u {
                        assert(buckets[u].contains(y));
                        let j = choose|j: int| 0 <= j < buckets[u].len() && buckets[u][j] == y;
                        assert(x == buckets[u][j].with_head(Var(v as usize)));
                    } else {
                        assert(done[p] && in_closure(adj, own, p, y));
                    }
                }
            }
        } else {
            assert(buckets2[w] == buckets[w]);
            assert(bucket_fed(
                adj,
                own,
                if given.contains(w as usize) {
                    done2
                } else {
                    done
                },
                w,
                buckets[w],
            ));
        }
    }
    assert forall|j: int| 0 <= j < queue2.len() implies (#[trigger] queue2[j]) < n
        && !done2[queue2[j] as int] && degree2[queue2[j] as int] == 0 by {
        if j < queue.len() {
            assert(queue2[j] == queue[j]);
            assert(queue.contains(queue[j]));
        }
    }
    assert(queue2.no_duplicates()) by {
        assert forall|a: int, b: int|
            0 <= a < queue2.len() && 0 <= b < queue2.len() && a != b implies queue2[a]
            != queue2[b] by {
            if a < queue.len() {
                assert(queue.contains(queue[a]));
            }
            if b < queue.len() {
                assert(queue.contains(queue[b]));
            }
        }
    }
    assert forall|w: int| 0 <= w < n && (#[trigger] degree2[w]) == 0 && !done2[w] implies queue2.contains(
        w as usize,
    ) by {
        if w == v {
            assert(queue2[queue.len() as int] == v as usize);
        } else {
            assert(degree[w] == 0);
            assert(queue.contains(w as usize));
            let i = choose|i: int| 0 <= i < queue.len() && queue[i] == w as usize;
            assert(queue2[i] == w as usize);
        }
    }
}

/// When every successor of `u` has been given its rules, `u` is done.
pub proof fn lemma_kahn_end<T: Term>(
    adj: Seq<Seq<usize>>,
    own: Seq<Seq<CnfRule<T>>>,
    done: Seq<bool>,
    u: int,
    degree: Seq<usize>,
    buckets: Seq<Seq<CnfRule<T>>>,
    queue: Seq<usize>,
)
    requires
        kahn_ready(adj, own),
        0 <= u < adj.len(),
        !done[u],
        mid_inv(adj, own, done, u, adj[u].len() as int, degree, buckets, queue),
    ensures
        kahn_inv(adj, own, done.update(u, true), degree, buckets, queue),
{
    let n = adj.len();
    let done2 = done.update(u, true);
    assert(adj[u].take(adj[u].len() as int) == adj[u]);
    assert forall|v: int| 0 <= v < n implies (#[trigger] degree[v]) == preds_left(
        adj,
        done2,
        v,
        n as int,
    ) by {
        lemma_preds_left_mark(adj, done, u, v, n as int);
    }
    assert forall|v: int| 0 <= v < n && !done2[v] implies bucket_fed(
        adj,
        own,
        done2,
        v,
        #[trigger] buckets[v],
    ) by {
        if !adj[u].contains(v as usize) {
            assert(bucket_fed(adj, own, done, v, buckets[v]));
            assert forall|x: CnfRule<T>| fed(adj, own, done, v, x) <==> fed(
                adj,
                own,
                done2,
                v,
                x,
            ) by {
                if fed(adj, own, done, v, x) && !own[v].contains(x) {
                    let (p, y) = choose|p: int, y: CnfRule<T>|
                        0 <= p < adj.len() && done[p] && adj[p].contains(v as usize)
                            && #[trigger] in_closure(adj, own, p, y) && x == y.with_head(
                            Var(v as usize),
                        );
                    assert(done2[p] && in_closure(adj, own, p, y));
                }
                if fed(adj, own, done2, v, x) && !own[v].contains(x) {
                    let (p, y) = choose|p: int, y: CnfRule<T>|
                        0 <= p < adj.len() && done2[p] && adj[p].contains(v as usize)
                            && #[trigger] in_closure(adj, own, p, y) && x == y.with_head(
                            Var(v as usize),
                        );
                    assert(done[p] && in_closure(adj, own, p, y));
                }
            }
        }
    }
}

/// When the queue is empty, every component whose rank lies below `bound`
/// is done.
pub proof fn lemma_kahn_all_done<T: Term>(
    adj: Seq<Seq<usize>>,
    own: Seq<Seq<CnfRule<T>>>,
    done: Seq<bool>,
    degree: Seq<usize>,
    buckets: Seq<Seq<CnfRule<T>>>,
    rank: Seq<nat>,
    bound: nat,
)
    requires
        kahn_ready(adj, own),
        ranked(adj, rank),
        kahn_inv(adj, own, done, degree, buckets, Seq::<usize>::empty()),
    ensures
        forall|w: int| 0 <= w < adj.len() && rank[w] < bound ==> #[trigger] done[w],
    decreases bound,
{
    if bound > 0 {
        lemma_kahn_all_done(adj, own, done, degree, buckets, rank, (bound - 1) as nat);
        assert forall|w: int| 0 <= w < adj.len() && rank[w] < bound implies #[trigger] done[w] by {
            if !done[w] {
                lemma_preds_left_zero(adj, done, w, adj.len() as int);
                assert forall|p: int| 0 <= p < adj.len() && (#[trigger] adj[p]).contains(
                    w as usize,
                ) implies done[p] by {
                    let k = choose|k: int| 0 <= k < adj[p].len() && adj[p][k] == w as usize;
                    assert(rank[p] < rank[adj[p][k] as int]);
                }
                assert(degree[w] == 0);
                assert(Seq::<usize>::empty().contains(w as usize));
            }
        }
    }
}

/// The graph with each edge once: of the successors of a vertex, those
/// that come first are kept.
fn distinct_edges(graph: &Vec<Vec<usize>>) -> (distinct: Vec<Vec<usize>>)
    ensures
        same_edges(adjacency(*graph), adjacency(distinct)),
        simple(adjacency(distinct)),
{
    let ghost adj = adjacency(*graph);
    let mut distinct: Vec<Vec<usize>> = Vec::new();
    let mut x: usize = 0;
    while x < graph.len()
        invariant
            x <= graph@.len(),
            adj == adjacency(*graph),
            distinct@.len() == x,
            forall|a: int| 0 <= a < x ==> (#[trigger] distinct@[a])@.no_duplicates(),
            forall|a: int, y: usize|
                0 <= a < x ==> (#[trigger] adj[a].contains(y) <==> distinct@[a]@.contains(y)),
        decreases graph@.len() - x,
    {
        let mut list: Vec<usize> = Vec::new();
        let mut k: usize = 0;
        while k < graph[x].len()
            invariant
                x < graph@.len(),
                adj == adjacency(*graph),
                k <= adj[x as int].len(),
                list@.no_duplicates(),
                forall|y: usize|
                    #[trigger] list@.contains(y) <==> adj[x as int].take(k as int).contains(y),
            decreases adj[x as int].len() - k,
        {
            let y0 = graph[x][k];
            let ghost before = list@;
            let ghost seen = adj[x as int].take(k as int);
            if !list_contains(&list, y0) {
                list.push(y0);
            }
            proof {
                let seen2 = adj[x as int].take(k + 1);
                assert(seen2 == seen.push(y0));
                assert forall|a: int, b: int|
                    0 <= a < list@.len() && 0 <= b < list@.len() && a != b implies list@[a]
                    != list@[b] by {
                    if a < before.len() {
                        assert(before.contains(before[a]));
                    }
                    if b < before.len() {
                        assert(before.contains(before[b]));
                    }
                }
                assert forall|y: usize| #[trigger] list@.contains(y) <==> seen2.contains(y) by {
                    if list@.contains(y) {
                        let i = choose|i: int| 0 <= i < list@.len() && list@[i] == y;
                        if i < before.len() {
                            assert(before[i] == y);
                            assert(before.contains(y));
                            let j = choose|j: int| 0 <= j < seen.len() && seen[j] == y;
                            assert(seen2[j] == y);
                        } else {
                            assert(seen2[k as int] == y);
                        }
                    }
                    if seen2.contains(y) {
                        let j = choose|j: int| 0 <= j < seen2.len() && seen2[j] == y;
                        if j < k {
                            assert(seen[j] == y);
                            assert(before.contains(y));
                            let i = choose|i: int| 0 <= i < before.len() && before[i] == y;
                            assert(list@[i] == y);
                        } else if before.contains(y) {
                            let i = choose|i: int| 0 <= i < before.len() && before[i] == y;
                            assert(list@[i] == y);
                        } else {
                            assert(list@[before.len() as int] == y);
                        }
                    }
                }
            }
            k += 1;
        }
        proof {
            assert(adj[x as int].take(k as int) == adj[x as int]);
        }
        distinct.push(list);
        x += 1;
    }
    proof {
        assert forall|a: int, y: usize| 0 <= a < adj.len() implies (#[trigger] adj[a].contains(y)
            <==> adjacency(distinct)[a].contains(y)) by {
            assert(adj[a].contains(y) <==> distinct@[a]@.contains(y));
        }
        assert forall|a: int| 0 <= a < adjacency(distinct).len() implies (#[trigger] adjacency(
            distinct,
        )[a]).no_duplicates() by {
            assert(distinct@[a]@.no_duplicates());
        }
    }
    distinct
}

/// What holds of a graph holds of the graph with the same edges, each
/// once: its successors are vertices, it has no cycle, and the closure of
/// the rules along it is the same.
pub proof fn lemma_same_edges_ready<T>(
    adj1: Seq<Seq<usize>>,
    adj2: Seq<Seq<usize>>,
    own: Seq<Seq<CnfRule<T>>>,
)
    requires
        kahn_input(adj1, own),
        same_edges(adj1, adj2),
    ensures
        graph_ok(adj2),
        acyclic(adj2),
        forall|c: int, x: CnfRule<T>| in_closure(adj1, own, c, x) <==> in_closure(adj2, own, c, x),
{
    assert forall|u: int, k: int| 0 <= u < adj2.len() && 0 <= k < adj2[u].len() implies (
    #[trigger] adj2[u][k]) < adj2.len() by {
        assert(adj2[u].contains(adj2[u][k]));
        assert(adj1[u].contains(adj2[u][k]) <==> adj2[u].contains(adj2[u][k]));
        let k1 = choose|k1: int| 0 <= k1 < adj1[u].len() && adj1[u][k1] == adj2[u][k];
        assert(adj1[u][k1] < adj1.len());
    }
    let rank = choose|rank: Seq<nat>| ranked(adj1, rank);
    assert forall|u: int, k: int| 0 <= u < adj2.len() && 0 <= k < adj2[u].len() implies rank[u]
        < rank[(#[trigger] adj2[u][k]) as int] by {
        assert(adj2[u].contains(adj2[u][k]));
        assert(adj1[u].contains(adj2[u][k]) <==> adj2[u].contains(adj2[u][k]));
        let k1 = choose|k1: int| 0 <= k1 < adj1[u].len() && adj1[u][k1] == adj2[u][k];
        assert(rank[u] < rank[adj1[u][k1] as int]);
    }
    assert(ranked(adj2, rank));
    assert forall|x: int, y: usize| 0 <= x < adj2.len() implies (#[trigger] adj2[x].contains(y)
        <==> adj1[x].contains(y)) by {
        assert(adj1[x].contains(y) <==> adj2[x].contains(y));
    }
    assert forall|c: int, x: CnfRule<T>| in_closure(adj1, own, c, x) <==> in_closure(
        adj2,
        own,
        c,
        x,
    ) by {
        if in_closure(adj1, own, c, x) {
            let (c1, j) = choose|c1: int, j: int|
                0 <= c1 < own.len() && 0 <= j < own[c1].len() && reaches(adj1, c1, c) && x == (
                #[trigger] own[c1][j]).with_head(Var(c as usize));
            lemma_same_edges_reaches(adj1, adj2, c1, c);
            assert(x == own[c1][j].with_head(Var(c as usize)));
        }
        if in_closure(adj2, own, c, x) {
            let (c1, j) = choose|c1: int, j: int|
                0 <= c1 < own.len() && 0 <= j < own[c1].len() && reaches(adj2, c1, c) && x == (
                #[trigger] own[c1][j]).with_head(Var(c as usize));
            lemma_same_edges_reaches(adj2, adj1, c1, c);
            assert(x == own[c1][j].with_head(Var(c as usize)));
        }
    }
}

/// For each vertex the number of vertices with an edge to it.
fn in_degrees(graph: &Vec<Vec<usize>>) -> (degree: Vec<usize>)
    requires
        graph_ok(adjacency(*graph)),
        simple(adjacency(*graph)),
    ensures
        degree@.len() == graph@.len(),
        forall|v: int|
            0 <= v < graph@.len() ==> (#[trigger] degree@[v]) == preds_left(
                adjacency(*graph),
                Seq::new(graph@.len(), |i: int| false),
                v,
                graph@.len() as int,
            ),
{
    let n = graph.len();
    let ghost adj = adjacency(*graph);
    let ghost none = Seq::new(n as nat, |i: int| false);
    let mut degree: Vec<usize> = Vec::new();
    let mut v: usize = 0;
    while v < n
        invariant
            v <= n,
            degree@.len() == v,
            forall|w: int| 0 <= w < v ==> degree@[w] == 0,
        decreases n - v,
    {
        degree.push(0);
        v += 1;
    }
    let mut x: usize = 0;
    while x < n
        invariant
            x <= n,
            n == graph@.len(),
            adj == adjacency(*graph),
            none == Seq::new(n as nat, |i: int| false),
            graph_ok(adj),
            simple(adj),
            degree@.len() == n,
            forall|w: int| 0 <= w < n ==> (#[trigger] degree@[w]) == preds_left(adj, none, w, x as int),
        decreases n - x,
    {
        let mut k: usize = 0;
        while k < graph[x].len()
            invariant
                x < n,
                n == graph@.len(),
                adj == adjacency(*graph),
                none == Seq::new(n as nat, |i: int| false),
                graph_ok(adj),
                simple(adj),
                degree@.len() == n,
                k <= adj[x as int].len(),
                forall|w: int|
                    0 <= w < n ==> (#[trigger] degree@[w]) == preds_left(adj, none, w, x as int)
                        + if adj[x as int].take(k as int).contains(w as usize) {
                        1int
                    } else {
                        0int
                    },
            decreases adj[x as int].len() - k,
        {
            let w0 = graph[x][k];
            let ghost before = degree@;
            proof {
                assert(adj[x as int][k as int] == w0);
                lemma_preds_left_bounds(adj, none, w0 as int, x as int);
                assert(adj[x as int].no_duplicates());
                let given = adj[x as int].take(k as int);
                if given.contains(w0) {
                    let i = choose|i: int| 0 <= i < given.len() && given[i] == w0;
                    assert(adj[x as int][i] == adj[x as int][k as int]);
                }
            }
            degree[w0] = degree[w0] + 1;
            proof {
                let given = adj[x as int].take(k as int);
                let given2 = adj[x as int].take(k + 1);
                assert(given2 == given.push(w0));
                assert forall|y: usize| #[trigger] given2.contains(y) <==> (given.contains(y) || y
                    == w0) by {
                    if given.contains(y) {
                        let i = choose|i: int| 0 <= i < given.len() && given[i] == y;
                        assert(given2[i] == y);
                    }
                    if given2.contains(y) {
                        let i = choose|i: int| 0 <= i < given2.len() && given2[i] == y;
                        if i < k {
                            assert(given[i] == y);
                        }
                    }
                    assert(given2[k as int] == w0);
                }
                assert forall|w: int| 0 <= w < n implies (#[trigger] degree@[w]) == preds_left(
                    adj,
                    none,
                    w,
                    x as int,
                ) + if given2.contains(w as usize) {
                    1int
                } else {
                    0int
                } by {
                    assert(before[w] == preds_left(adj, none, w, x as int) + if given.contains(
                        w as usize,
                    ) {
                        1int
                    } else {
                        0int
                    });
                }
            }
            k += 1;
        }
        proof {
            assert(adj[x as int].take(k as int) == adj[x as int]);
        }
        x += 1;
    }
    degree
}

/// Gives the list of `v` a copy of each rule of the list of `u`, with `v`
/// as its head.
fn give_rules<T: Term>(buckets: &mut Vec<Vec<CnfRule<T>>>, u: usize, v: usize)
    requires
        u < old(buckets)@.len(),
        v < old(buckets)@.len(),
        u != v,
    ensures
        final(buckets)@.len() == old(buckets)@.len(),
        forall|w: int|
            0 <= w < old(buckets)@.len() && w != v ==> (#[trigger] final(buckets)@[w]) == old(
                buckets,
            )@[w],
        given_rules(
            old(buckets)@[v as int]@,
            old(buckets)@[u as int]@,
            v as int,
            final(buckets)@[v as int]@,
        ),
{
    let ghost from = buckets@[u as int]@;
    let ghost before = buckets@[v as int]@;
    let mut j: usize = 0;
    while j < buckets[u].len()
        invariant
            u < buckets@.len(),
            v < buckets@.len(),
            u != v,
            buckets@.len() == old(buckets)@.len(),
            buckets@[u as int]@ == from,
            j <= from.len(),
            forall|w: int|
                0 <= w < buckets@.len() && w != v ==> (#[trigger] buckets@[w]) == old(buckets)@[w],
            forall|x: CnfRule<T>|
                #[trigger] buckets@[v as int]@.contains(x) <==> (before.contains(x) || exists|
                    i: int,
                |
                    0 <= i < j && x == (#[trigger] from[i]).with_head(Var(v))),
        decreases from.len() - j,
    {
        let ghost had = buckets@[v as int]@;
        let rule = rule_with_head(&buckets[u][j], Var(v));
        buckets[v].push(rule);
        proof {
            let has = buckets@[v as int]@;
            assert(has == had.push(rule));
            assert forall|x: CnfRule<T>| #[trigger] has.contains(x) <==> (before.contains(x)
                || exists|i: int| 0 <= i < j + 1 && x == (#[trigger] from[i]).with_head(Var(v))) by {
                if has.contains(x) {
                    let i = choose|i: int| 0 <= i < has.len() && has[i] == x;
                    if i < had.len() {
                        assert(had[i] == x);
                        assert(had.contains(x));
                    } else {
                        assert(x == from[j as int].with_head(Var(v)));
                    }
                }
                if had.contains(x) {
                    let i = choose|i: int| 0 <= i < had.len() && had[i] == x;
                    assert(has[i] == x);
                }
                if exists|i: int| 0 <= i < j + 1 && x == (#[trigger] from[i]).with_head(Var(v)) {
                    let i = choose|i: int|
                        0 <= i < j + 1 && x == (#[trigger] from[i]).with_head(Var(v));
                    if i == j {
                        assert(has[had.len() as int] == x);
                    }
                }
            }
        }
        j += 1;
    }
}

/// Whether `x` is in the closure of a component below `c`.
pub open spec fn closed_below<T>(
    adj: Seq<Seq<usize>>,
    own: Seq<Seq<CnfRule<T>>>,
    c: int,
    x: CnfRule<T>,
) -> bool {
    0 <= x.head() < c && in_closure(adj, own, x.head(), x)
}

/// The rules of all components, after each component has taken over the
/// rules of the components that lead to it: component by component, the
/// rules of each in rising order and without repetition.
///
/// An edge that stands more than once in the graph counts once. The
/// components are worked off in the order in which they become ready: a
/// component is ready when every component with an edge to it is done.
pub fn replace_unit_rules_at_each_scc<T: Term>(
    n_sccs: usize,
    reversed_quotient_graph: Vec<Vec<usize>>,
    nonunit_rules: Vec<Vec<CnfRule<T>>>,
) -> (all: Vec<CnfRule<T>>)
    requires
        reversed_quotient_graph@.len() == n_sccs,
        kahn_input(adjacency(reversed_quotient_graph), buckets_view(nonunit_rules)),
    ensures
        listed_rising(all@),
        forall|x: CnfRule<T>|
            #[trigger] all@.contains(x) <==> closed_below(
                adjacency(reversed_quotient_graph),
                buckets_view(nonunit_rules),
                n_sccs as int,
                x,
            ),
{
    let ghost given = adjacency(reversed_quotient_graph);
    let ghost own = buckets_view(nonunit_rules);
    let reversed_quotient_graph = distinct_edges(&reversed_quotient_graph);
    let ghost adj = adjacency(reversed_quotient_graph);
    proof {
        lemma_same_edges_ready(given, adj, own);
        assert(reversed_quotient_graph.len() == n_sccs);
    }
    let mut nonunit_rules = nonunit_rules;
    let mut degree = in_degrees(&reversed_quotient_graph);
    let ghost mut done = Seq::new(n_sccs as nat, |i: int| false);
    let mut queue = VecDeque::<usize>::new();
    let mut u: usize = 0;
    while u < n_sccs
        invariant
            u <= n_sccs,
            degree@.len() == n_sccs,
            forall|k: int|
                0 <= k < queue@.len() ==> (#[trigger] queue@[k]) < u && degree@[queue@[k] as int]
                    == 0,
            queue@.no_duplicates(),
            forall|v: int|
                0 <= v < u && (#[trigger] degree@[v]) == 0 ==> queue@.contains(v as usize),
        decreases n_sccs - u,
    {
        if degree[u] == 0 {
            let ghost before = queue@;
            queue.push_back(u);
            proof {
                assert forall|a: int, b: int|
                    0 <= a < queue@.len() && 0 <= b < queue@.len() && a != b implies queue@[a]
                    != queue@[b] by {}
                assert forall|v: int| 0 <= v < u + 1 && (#[trigger] degree@[v])
                    == 0 implies queue@.contains(v as usize) by {
                    if v < u {
                        let i = choose|i: int| 0 <= i < before.len() && before[i] == v as usize;
                        assert(queue@[i] == v as usize);
                    } else {
                        assert(queue@[before.len() as int] == v as usize);
                    }
                }
            }
        }
        u += 1;
    }
    proof {
        assert forall|v: int| 0 <= v < n_sccs && !done[v] implies bucket_fed(
            adj,
            own,
            done,
            v,
            #[trigger] buckets_view(nonunit_rules)[v],
        ) by {
            assert forall|x: CnfRule<T>| #[trigger] own[v].contains(x) <==> fed(
                adj,
                own,
                done,
                v,
                x,
            ) by {}
        }
        assert(kahn_inv(adj, own, done, degree@, buckets_view(nonunit_rules), queue@));
        lemma_count_true_bounds(done);
    }
    while queue.len() > 0
        invariant
            adj == adjacency(reversed_quotient_graph),
            adj.len() == n_sccs,
            kahn_ready(adj, own),
            nonunit_rules@.len() == n_sccs,
            kahn_inv(adj, own, done, degree@, buckets_view(nonunit_rules), queue@),
            0 <= count_true(done) <= n_sccs,
        decreases n_sccs - count_true(done),
    {
        let ghost queue0 = queue@;
        let ghost buckets0 = buckets_view(nonunit_rules);
        let u = queue.pop_front().unwrap();
        proof {
            assert(queue0[0] == u);
        }
        sort_dedup(&mut nonunit_rules[u]);
        proof {
            let sorted = nonunit_rules@[u as int]@;
            assert(buckets_view(nonunit_rules) =~= buckets0.update(u as int, sorted));
            lemma_kahn_start(adj, own, done, degree@, buckets0, queue0, sorted);
            lemma_count_true_mark(done, u as int);
            lemma_count_true_bounds(done.update(u as int, true));
        }
        let mut k: usize = 0;
        while k < reversed_quotient_graph[u].len()
            invariant
                adj == adjacency(reversed_quotient_graph),
                adj.len() == n_sccs,
                kahn_ready(adj, own),
                nonunit_rules@.len() == n_sccs,
                u < n_sccs,
                !done[u as int],
                done.len() == n_sccs,
                k <= adj[u as int].len(),
                mid_inv(
                    adj,
                    own,
                    done,
                    u as int,
                    k as int,
                    degree@,
                    buckets_view(nonunit_rules),
                    queue@,
                ),
            decreases adj[u as int].len() - k,
        {
            let v = reversed_quotient_graph[u][k];
            let ghost degree1 = degree@;
            let ghost buckets1 = buckets_view(nonunit_rules);
            let ghost queue1 = queue@;
            proof {
                assert(adj[u as int][k as int] == v);
                lemma_kahn_next(adj, own, done, u as int, k as int, degree1, buckets1, queue1);
            }
            degree[v] = degree[v] - 1;
            if degree[v] == 0 {
                queue.push_back(v);
            }
            give_rules(&mut nonunit_rules, u, v);
            proof {
                let after = nonunit_rules@[v as int]@;
                assert(buckets_view(nonunit_rules) =~= buckets1.update(v as int, after));
                lemma_kahn_step(
                    adj,
                    own,
                    done,
                    u as int,
                    k as int,
                    degree1,
                    buckets1,
                    queue1,
                    after,
                );
            }
            k += 1;
        }
        proof {
            lemma_kahn_end(
                adj,
                own,
                done,
                u as int,
                degree@,
                buckets_view(nonunit_rules),
                queue@,
            );
            done = done.update(u as int, true);
        }
    }
    proof {
        assert(queue@ =~= Seq::<usize>::empty());
        let rank = choose|rank: Seq<nat>| ranked(adj, rank);
        assert forall|v: int| 0 <= v < n_sccs implies #[trigger] done[v] by {
            lemma_kahn_all_done(
                adj,
                own,
                done,
                degree@,
                buckets_view(nonunit_rules),
                rank,
                rank[v] + 1,
            );
        }
    }
    let mut all_nonunit_rules: Vec<CnfRule<T>> = Vec::new();
    let ghost buckets = buckets_view(nonunit_rules);
    let mut c: usize = 0;
    while c < n_sccs
        invariant
            c <= n_sccs,
            adj.len() == n_sccs,
            kahn_ready(adj, own),
            nonunit_rules@.len() == n_sccs,
            buckets.len() == n_sccs,
            forall|v: int| 0 <= v < n_sccs ==> bucket_done(adj, own, v, #[trigger] buckets[v]),
            forall|v: int| c <= v < n_sccs ==> (#[trigger] nonunit_rules@[v])@ == buckets[v],
            listed_rising(all_nonunit_rules@),
            forall|x: CnfRule<T>|
                #[trigger] all_nonunit_rules@.contains(x) <==> closed_below(adj, own, c as int, x),
        decreases n_sccs - c,
    {
        let ghost before = all_nonunit_rules@;
        let ghost part = buckets[c as int];
        proof {
            assert(nonunit_rules@[c as int]@ == part);
            assert(bucket_done(adj, own, c as int, part));
        }
        all_nonunit_rules.append(&mut nonunit_rules[c]);
        proof {
            let after = all_nonunit_rules@;
            assert(after == before + part);
            assert forall|j: int| 0 <= j < part.len() implies (#[trigger] part[j]).head() == c by {
                assert(part.contains(part[j]));
                assert(in_closure(adj, own, c as int, part[j]));
            }
            assert forall|i: int, j: int| 0 <= i < j < after.len() implies listed_lt(
                #[trigger] after[i],
                #[trigger] after[j],
            ) by {
                if j < before.len() {
                } else if i < before.len() {
                    assert(before.contains(before[i]));
                    assert(closed_below(adj, own, c as int, before[i]));
                    assert(after[j] == part[j - before.len()]);
                } else {
                    assert(after[i] == part[i - before.len()]);
                    assert(after[j] == part[j - before.len()]);
                }
            }
            assert forall|x: CnfRule<T>| #[trigger] after.contains(x) <==> closed_below(
                adj,
                own,
                c + 1,
                x,
            ) by {
                if after.contains(x) {
                    let i = choose|i: int| 0 <= i < after.len() && after[i] == x;
                    if i < before.len() {
                        assert(before[i] == x);
                        assert(before.contains(x));
                    } else {
                        assert(part[i - before.len()] == x);
                        assert(part.contains(x));
                    }
                }
                if closed_below(adj, own, c + 1, x) {
                    if x.head() < c {
                        assert(before.contains(x));
                        let i = choose|i: int| 0 <= i < before.len() && before[i] == x;
                        assert(after[i] == x);
                    } else {
                        assert(part.contains(x));
                        let i = choose|i: int| 0 <= i < part.len() && part[i] == x;
                        assert(after[before.len() + i] == x);
                    }
                }
            }
            assert forall|v: int| c + 1 <= v < n_sccs implies (#[trigger] nonunit_rules@[v])@
                == buckets[v] by {}
        }
        c += 1;
    }
    proof {
        assert forall|x: CnfRule<T>| #[trigger] all_nonunit_rules@.contains(x) <==> closed_below(
            given,
            own,
            n_sccs as int,
            x,
        ) by {
            assert(in_closure(given, own, x.head(), x) <==> in_closure(adj, own, x.head(), x));
        }
    }
    all_nonunit_rules
}

} // verus!
