//! The unit rules of a grammar as a graph, and that graph with each
//! strongly connected component drawn together into one vertex.

use vstd::prelude::*;
use crate::cnf::graph::{adjacency, graph_ok, has_edge};
use crate::cnf::scc::{is_condensation, listed_in, parts};
use crate::cnf::weak_cnf::{weak_rule_in_range, WeakCnfRule};
use crate::cnf::CnfRule;
use crate::grammar::Var;
use crate::term::Term;

verus! {

/// The variables `B` of the unit rules `A -> B` with `A` the variable `u`,
/// in the order of the rules.
pub open spec fn unit_targets<T>(rules: Seq<WeakCnfRule<T>>, u: int) -> Seq<usize>
    decreases rules.len(),
{
    if rules.len() == 0 {
        Seq::empty()
    } else {
        let rest = unit_targets(rules.drop_last(), u);
        match rules.last() {
            WeakCnfRule::Unit(h, t) => if h.0 == u {
                rest.push(t.0)
            } else {
                rest
            },
            _ => rest,
        }
    }
}

/// The graph of the unit rules over `n` variables.
pub open spec fn unit_adj<T>(rules: Seq<WeakCnfRule<T>>, n: int) -> Seq<Seq<usize>> {
    Seq::new(n as nat, |u: int| unit_targets(rules, u))
}

/// Whether `rules` holds the unit rule `u -> v`.
pub open spec fn has_unit_rule<T>(rules: Seq<WeakCnfRule<T>>, u: int, v: int) -> bool {
    exists|i: int|
        0 <= i < rules.len() && (#[trigger] rules[i] matches WeakCnfRule::Unit(h, t) && h.0 == u
            && t.0 == v)
}

/// The successors of `u` are the variables of its unit rules.
pub proof fn lemma_unit_targets<T>(rules: Seq<WeakCnfRule<T>>, u: int, v: int)
    ensures
        unit_targets(rules, u).contains(v as usize) && 0 <= v <= usize::MAX <==> has_unit_rule(
            rules,
            u,
            v,
        ),
    decreases rules.len(),
{
    if rules.len() > 0 {
        let front = rules.drop_last();
        let rest = unit_targets(front, u);
        lemma_unit_targets(front, u, v);
        let all = unit_targets(rules, u);
        if has_unit_rule(rules, u, v) {
            let i = choose|i: int|
                0 <= i < rules.len() && (#[trigger] rules[i] matches WeakCnfRule::Unit(h, t) && h.0
                    == u && t.0 == v);
            if i < rules.len() - 1 {
                assert(front[i] == rules[i]);
                assert(has_unit_rule(front, u, v));
                let k = choose|k: int| 0 <= k < rest.len() && rest[k] == v as usize;
                assert(all[k] == v as usize);
            } else {
                assert(all[rest.len() as int] == v as usize);
            }
        }
        if all.contains(v as usize) && 0 <= v <= usize::MAX {
            let k = choose|k: int| 0 <= k < all.len() && all[k] == v as usize;
            if k < rest.len() {
                assert(rest[k] == v as usize);
                assert(has_unit_rule(front, u, v));
                let i = choose|i: int|
                    0 <= i < front.len() && (#[trigger] front[i] matches WeakCnfRule::Unit(h, t)
                        && h.0 == u && t.0 == v);
                assert(rules[i] == front[i]);
            } else {
                assert(rules[rules.len() - 1] == rules.last());
            }
        }
    }
}

/// An edge of the graph of the unit rules is a unit rule.
pub proof fn lemma_unit_edge<T>(rules: Seq<WeakCnfRule<T>>, n: int, u: int, v: int)
    requires
        0 <= u < n,
    ensures
        has_edge(unit_adj(rules, n), u, v) <==> has_unit_rule(rules, u, v),
{
    let adj = unit_adj(rules, n);
    lemma_unit_targets(rules, u, v);
    if has_edge(adj, u, v) {
        let k = choose|k: int| 0 <= k < adj[u].len() && #[trigger] adj[u][k] == v;
        assert(unit_targets(rules, u)[k] == v as usize);
    }
    if has_unit_rule(rules, u, v) {
        let k = choose|k: int|
            0 <= k < unit_targets(rules, u).len() && unit_targets(rules, u)[k] == v as usize;
        assert(adj[u][k] == v);
    }
}

/// The successors in the graph of the unit rules are variables.
pub proof fn lemma_unit_adj_ok<T>(rules: Seq<WeakCnfRule<T>>, n: int)
    requires
        0 <= n,
        forall|i: int| 0 <= i < rules.len() ==> weak_rule_in_range(#[trigger] rules[i], n),
    ensures
        graph_ok(unit_adj(rules, n)),
        unit_adj(rules, n).len() == n,
{
    let adj = unit_adj(rules, n);
    assert forall|u: int, k: int| 0 <= u < adj.len() && 0 <= k < adj[u].len() implies (
    #[trigger] adj[u][k]) < adj.len() by {
        let v = adj[u][k] as int;
        assert(unit_targets(rules, u).contains(v as usize));
        lemma_unit_targets(rules, u, v);
        let i = choose|i: int|
            0 <= i < rules.len() && (#[trigger] rules[i] matches WeakCnfRule::Unit(h, t) && h.0 == u
                && t.0 == v);
        assert(weak_rule_in_range(rules[i], n));
    }
}

/// The graph of the unit rules of `rules`.
pub fn unit_graph<T>(rules: &Vec<WeakCnfRule<T>>, n: usize) -> (graph: Vec<Vec<usize>>)
    requires
        forall|i: int| 0 <= i < rules@.len() ==> weak_rule_in_range(#[trigger] rules@[i], n as int),
    ensures
        adjacency(graph) == unit_adj(rules@, n as int),
        graph_ok(adjacency(graph)),
        graph@.len() == n,
{
    let mut graph: Vec<Vec<usize>> = Vec::new();
    let mut u: usize = 0;
    while u < n
        invariant
            u <= n,
            graph@.len() == u,
            forall|x: int| 0 <= x < u ==> (#[trigger] graph@[x])@.len() == 0,
        decreases n - u,
    {
        graph.push(Vec::new());
        u += 1;
    }
    let mut i: usize = 0;
    while i < rules.len()
        invariant
            i <= rules@.len(),
            graph@.len() == n,
            forall|k: int|
                0 <= k < rules@.len() ==> weak_rule_in_range(#[trigger] rules@[k], n as int),
            forall|x: int|
                0 <= x < n ==> (#[trigger] graph@[x])@ == unit_targets(rules@.take(i as int), x),
            forall|x: int, k: int|
                0 <= x < n && 0 <= k < graph@[x]@.len() ==> (#[trigger] graph@[x]@[k]) < n,
        decreases rules@.len() - i,
    {
        proof {
            assert(rules@.take(i + 1).drop_last() == rules@.take(i as int));
            assert(weak_rule_in_range(rules@[i as int], n as int));
        }
        match &rules[i] {
            WeakCnfRule::Unit(first, second) => {
                graph[first.0].push(second.0);
            },
            _ => {},
        }
        i += 1;
    }
    proof {
        assert(rules@.take(i as int) == rules@);
        assert(adjacency(graph) =~= unit_adj(rules@, n as int));
    }
    graph
}

/// The component of each vertex: its index in `sccs`.
pub(crate) fn component_map(sccs: &Vec<Vec<usize>>, n: usize, Ghost(adj): Ghost<Seq<Seq<usize>>>) -> (vars_map:
    Vec<Var>)
    requires
        adj.len() == n,
        is_condensation(adj, parts(*sccs)),
    ensures
        vars_map@.len() == n,
        forall|c: int, k: int|
            0 <= c < sccs@.len() && 0 <= k < sccs@[c]@.len() ==> vars_map@[(
            #[trigger] sccs@[c]@[k]) as int].0 == c,
        forall|v: int| 0 <= v < n ==> (#[trigger] vars_map@[v]).0 < sccs@.len(),
{
    let ghost ps = parts(*sccs);
    let mut vars_map: Vec<Var> = Vec::new();
    let mut v: usize = 0;
    while v < n
        invariant
            v <= n,
            vars_map@.len() == v,
        decreases n - v,
    {
        vars_map.push(Var(0));
        v += 1;
    }
    let mut c: usize = 0;
    while c < sccs.len()
        invariant
            c <= sccs@.len(),
            vars_map@.len() == n,
            adj.len() == n,
            ps == parts(*sccs),
            is_condensation(adj, ps),
            forall|c1: int, k: int|
                0 <= c1 < c && 0 <= k < sccs@[c1]@.len() ==> vars_map@[(
                #[trigger] sccs@[c1]@[k]) as int].0 == c1,
        decreases sccs@.len() - c,
    {
        let mut k: usize = 0;
        while k < sccs[c].len()
            invariant
                c < sccs@.len(),
                k <= sccs@[c as int]@.len(),
                vars_map@.len() == n,
                adj.len() == n,
                ps == parts(*sccs),
                is_condensation(adj, ps),
                forall|c1: int, k1: int|
                    0 <= c1 < c && 0 <= k1 < sccs@[c1]@.len() ==> vars_map@[(
                    #[trigger] sccs@[c1]@[k1]) as int].0 == c1,
                forall|k1: int|
                    0 <= k1 < k ==> vars_map@[(#[trigger] sccs@[c as int]@[k1]) as int].0 == c,
            decreases sccs@[c as int]@.len() - k,
        {
            let u = sccs[c][k];
            let ghost before = vars_map@;
            proof {
                assert(ps[c as int][k as int] == u);
            }
            vars_map[u] = Var(c);
            proof {
                assert forall|c1: int, k1: int|
                    0 <= c1 < c && 0 <= k1 < sccs@[c1]@.len() implies vars_map@[(
                #[trigger] sccs@[c1]@[k1]) as int].0 == c1 by {
                    assert(ps[c1][k1] == sccs@[c1]@[k1]);
                    assert(before[sccs@[c1]@[k1] as int].0 == c1);
                }
                assert forall|k1: int| 0 <= k1 < k + 1 implies vars_map@[(
                #[trigger] sccs@[c as int]@[k1]) as int].0 == c by {
                    assert(ps[c as int][k1] == sccs@[c as int]@[k1]);
                    if k1 < k {
                        assert(before[sccs@[c as int]@[k1] as int].0 == c);
                    }
                }
            }
            k += 1;
        }
        c += 1;
    }
    proof {
        assert forall|v: int| 0 <= v < n implies (#[trigger] vars_map@[v]).0 < sccs@.len() by {
            assert(listed_in(ps, v));
            let (c1, k1) = choose|c1: int, k1: int|
                0 <= c1 < ps.len() && 0 <= k1 < ps[c1].len() && #[trigger] ps[c1][k1] == v;
            assert(sccs@[c1]@[k1] == v);
        }
    }
    vars_map
}

/// Whether one of the edges of `adj` that come before edge `kk` of vertex
/// `uu` leads from a vertex of component `y` to one of component `x`.
pub open spec fn edge_seen(
    adj: Seq<Seq<usize>>,
    map: Seq<Var>,
    x: int,
    y: int,
    uu: int,
    kk: int,
) -> bool {
    exists|u: int, k: int|
        0 <= u < adj.len() && 0 <= k < adj[u].len() && (u < uu || (u == uu && k < kk)) && map[(
        #[trigger] adj[u][k]) as int].0 == x && map[u].0 == y
}

/// Whether an edge of `adj` leads from a vertex of component `y` to one of
/// component `x`.
pub open spec fn quotient_edge(adj: Seq<Seq<usize>>, map: Seq<Var>, x: int, y: int) -> bool {
    edge_seen(adj, map, x, y, adj.len() as int, 0)
}

/// The successors of component `x` that the edges of `adj` before edge `k`
/// of vertex `u` give: for each edge that leads to a vertex of `x` from a
/// vertex of another component, that component, each once, in the order in
/// which they come first.
pub open spec fn scan_edges(adj: Seq<Seq<usize>>, map: Seq<Var>, x: int, u: int, k: int) -> Seq<
    usize,
>
    decreases u, k,
{
    if u < 0 || k < 0 {
        Seq::empty()
    } else if k == 0 {
        if u == 0 {
            Seq::empty()
        } else {
            scan_edges(adj, map, x, u - 1, adj[u - 1].len() as int)
        }
    } else {
        let rest = scan_edges(adj, map, x, u, k - 1);
        let y = map[u].0;
        if map[adj[u][k - 1] as int].0 == x && y != x && !rest.contains(y) {
            rest.push(y)
        } else {
            rest
        }
    }
}

/// Whether `list` holds `y`.
pub fn list_contains(list: &Vec<usize>, y: usize) -> (found: bool)
    ensures
        found == list@.contains(y),
{
    let mut k: usize = 0;
    while k < list.len()
        invariant
            k <= list@.len(),
            forall|m: int| 0 <= m < k ==> list@[m] != y,
        decreases list@.len() - k,
    {
        if list[k] == y {
            return true;
        }
        k += 1;
    }
    false
}

/// The graph of the components, with its edges turned round: an edge leads
/// from `x` to another component `y` where an edge of `graph` leads from a
/// vertex of `y` to one of `x`. No edge stands twice in a list.
pub fn get_reversed_quotient_graph(
    graph: &Vec<Vec<usize>>,
    n_sccs: usize,
    vars_map: &Vec<Var>,
) -> (reversed: Vec<Vec<usize>>)
    requires
        graph_ok(adjacency(*graph)),
        vars_map@.len() == graph@.len(),
        forall|v: int| 0 <= v < vars_map@.len() ==> (#[trigger] vars_map@[v]).0 < n_sccs,
    ensures
        reversed@.len() == n_sccs,
        graph_ok(adjacency(reversed)),
        forall|x: int| 0 <= x < n_sccs ==> (#[trigger] adjacency(reversed)[x]).no_duplicates(),
        forall|x: int, y: int|
            0 <= x < n_sccs ==> (#[trigger] adjacency(reversed)[x].contains(y as usize) && 0 <= y
                <= usize::MAX <==> x != y && quotient_edge(adjacency(*graph), vars_map@, x, y)),
        forall|x: int|
            0 <= x < n_sccs ==> #[trigger] adjacency(reversed)[x] == scan_edges(
                adjacency(*graph),
                vars_map@,
                x,
                graph@.len() as int,
                0,
            ),
{
    let ghost adj = adjacency(*graph);
    let ghost map = vars_map@;
    let n = graph.len();
    let mut reversed: Vec<Vec<usize>> = Vec::new();
    let mut c: usize = 0;
    while c < n_sccs
        invariant
            c <= n_sccs,
            reversed@.len() == c,
            forall|x: int| 0 <= x < c ==> (#[trigger] reversed@[x])@.len() == 0,
        decreases n_sccs - c,
    {
        reversed.push(Vec::new());
        c += 1;
    }
    let mut u: usize = 0;
    while u < n
        invariant
            u <= n,
            n == graph@.len(),
            adj == adjacency(*graph),
            map == vars_map@,
            graph_ok(adj),
            map.len() == n,
            forall|v: int| 0 <= v < map.len() ==> (#[trigger] map[v]).0 < n_sccs,
            reversed@.len() == n_sccs,
            graph_ok(adjacency(reversed)),
            forall|x: int| 0 <= x < n_sccs ==> (#[trigger] adjacency(reversed)[x]).no_duplicates(),
            forall|x: int, y: int|
                0 <= x < n_sccs ==> (#[trigger] adjacency(reversed)[x].contains(y as usize) && 0
                    <= y <= usize::MAX <==> x != y && edge_seen(adj, map, x, y, u as int, 0)),
            forall|x: int|
                0 <= x < n_sccs ==> #[trigger] adjacency(reversed)[x] == scan_edges(
                    adj,
                    map,
                    x,
                    u as int,
                    0,
                ),
        decreases n - u,
    {
        let mut k: usize = 0;
        while k < graph[u].len()
            invariant
                u < n,
                k <= graph@[u as int]@.len(),
                n == graph@.len(),
                adj == adjacency(*graph),
                map == vars_map@,
                graph_ok(adj),
                forall|x: int|
                    0 <= x < n_sccs ==> #[trigger] adjacency(reversed)[x] == scan_edges(
                        adj,
                        map,
                        x,
                        u as int,
                        k as int,
                    ),
                map.len() == n,
                forall|v: int| 0 <= v < map.len() ==> (#[trigger] map[v]).0 < n_sccs,
                reversed@.len() == n_sccs,
                graph_ok(adjacency(reversed)),
                forall|x: int|
                    0 <= x < n_sccs ==> (#[trigger] adjacency(reversed)[x]).no_duplicates(),
                forall|x: int, y: int|
                    0 <= x < n_sccs ==> (#[trigger] adjacency(reversed)[x].contains(y as usize)
                        && 0 <= y <= usize::MAX <==> x != y && edge_seen(
                        adj,
                        map,
                        x,
                        y,
                        u as int,
                        k as int,
                    )),
            decreases graph@[u as int]@.len() - k,
        {
            let v = graph[u][k];
            proof {
                assert(adj[u as int][k as int] == v);
            }
            let x0 = vars_map[v].0;
            let y0 = vars_map[u].0;
            let ghost before = adjacency(reversed);
            if x0 != y0 && !list_contains(&reversed[x0], y0) {
                reversed[x0].push(y0);
            }
            proof {
                let after = adjacency(reversed);
                assert forall|x: int| 0 <= x < n_sccs implies #[trigger] after[x] == scan_edges(
                    adj,
                    map,
                    x,
                    u as int,
                    k + 1,
                ) by {
                    assert(before[x] == scan_edges(adj, map, x, u as int, k as int));
                    if x == x0 && x0 != y0 && !before[x].contains(y0) {
                        assert(after[x] =~= before[x].push(y0));
                    } else {
                        assert(after[x] =~= before[x]);
                    }
                }
                assert forall|x: int, j: int|
                    0 <= x < after.len() && 0 <= j < after[x].len() implies (#[trigger] after[x][j])
                    < after.len() by {
                    if x == x0 && j == before[x].len() {
                    } else {
                        assert(after[x][j] == before[x][j]);
                    }
                }
                assert forall|x: int| 0 <= x < n_sccs implies (#[trigger] after[x]).no_duplicates() by {
                    assert(before[x].no_duplicates());
                    if x == x0 && after[x].len() > before[x].len() {
                        assert(after[x] == before[x].push(y0));
                        assert forall|a: int, b: int|
                            0 <= a < after[x].len() && 0 <= b < after[x].len() && a
                                != b implies after[x][a] != after[x][b] by {
                            if a < before[x].len() {
                                assert(before[x].contains(before[x][a]));
                            }
                            if b < before[x].len() {
                                assert(before[x].contains(before[x][b]));
                            }
                        }
                    } else {
                        assert(after[x] == before[x]);
                    }
                }
                assert forall|x: int, y: int| 0 <= x < n_sccs implies (#[trigger] after[x].contains(
                    y as usize,
                ) && 0 <= y <= usize::MAX <==> x != y && edge_seen(
                    adj,
                    map,
                    x,
                    y,
                    u as int,
                    k + 1,
                )) by {
                    let was = before[x].contains(y as usize) && 0 <= y <= usize::MAX;
                    assert(was <==> x != y && edge_seen(adj, map, x, y, u as int, k as int));
                    if edge_seen(adj, map, x, y, u as int, k as int) {
                        let (u1, k1) = choose|u1: int, k1: int|
                            0 <= u1 < adj.len() && 0 <= k1 < adj[u1].len() && (u1 < u || (u1 == u
                                && k1 < k)) && map[(#[trigger] adj[u1][k1]) as int].0 == x
                                && map[u1].0 == y;
                        assert(map[adj[u1][k1] as int].0 == x);
                    }
                    if edge_seen(adj, map, x, y, u as int, k + 1) && !edge_seen(
                        adj,
                        map,
                        x,
                        y,
                        u as int,
                        k as int,
                    ) {
                        let (u1, k1) = choose|u1: int, k1: int|
                            0 <= u1 < adj.len() && 0 <= k1 < adj[u1].len() && (u1 < u || (u1 == u
                                && k1 < k + 1)) && map[(#[trigger] adj[u1][k1]) as int].0 == x
                                && map[u1].0 == y;
                        assert(u1 == u && k1 == k);
                        assert(x == x0 && y == y0);
                    }
                    if x == x0 && y == y0 {
                        assert(map[adj[u as int][k as int] as int].0 == x);
                        assert(edge_seen(adj, map, x, y, u as int, k + 1));
                    }
                    if was {
                        let j = choose|j: int| 0 <= j < before[x].len() && before[x][j] == y as usize;
                        assert(after[x][j] == y as usize);
                    }
                    if after[x].contains(y as usize) && 0 <= y <= usize::MAX && !was {
                        let j = choose|j: int| 0 <= j < after[x].len() && after[x][j] == y as usize;
                        if j < before[x].len() {
                            assert(before[x][j] == y as usize);
                        }
                        assert(x == x0 && y == y0);
                    }
                    if x == x0 && y == y0 && x != y {
                        if !was {
                            assert(after[x][before[x].len() as int] == y0);
                        }
                    }
                }
            }
            k += 1;
        }
        proof {
            assert forall|x: int, y: int| 0 <= x < n_sccs implies (edge_seen(
                adj,
                map,
                x,
                y,
                u as int,
                k as int,
            ) <==> edge_seen(adj, map, x, y, u + 1, 0)) by {
                if edge_seen(adj, map, x, y, u as int, k as int) {
                    let (u1, k1) = choose|u1: int, k1: int|
                        0 <= u1 < adj.len() && 0 <= k1 < adj[u1].len() && (u1 < u || (u1 == u && k1
                            < k)) && map[(#[trigger] adj[u1][k1]) as int].0 == x && map[u1].0 == y;
                    assert(map[adj[u1][k1] as int].0 == x);
                }
                if edge_seen(adj, map, x, y, u + 1, 0) {
                    let (u1, k1) = choose|u1: int, k1: int|
                        0 <= u1 < adj.len() && 0 <= k1 < adj[u1].len() && (u1 < u + 1 || (u1 == u
                            + 1 && k1 < 0)) && map[(#[trigger] adj[u1][k1]) as int].0 == x
                            && map[u1].0 == y;
                    assert(map[adj[u1][k1] as int].0 == x);
                }
            }
        }
        u += 1;
    }
    proof {
        assert forall|x: int, y: int| 0 <= x < n_sccs implies (edge_seen(
            adj,
            map,
            x,
            y,
            u as int,
            0,
        ) <==> quotient_edge(adj, map, x, y)) by {}
    }
    reversed
}

/// The rule in Chomsky normal form that `r`, which is no unit rule,
/// becomes when each variable is replaced by its component.
pub open spec fn recast<T>(r: WeakCnfRule<T>, map: Seq<Var>) -> CnfRule<T>
    recommends
        !(r is Unit),
{
    match r {
        WeakCnfRule::Terminal(h, t) => CnfRule::Terminal(map[h.0 as int], t),
        WeakCnfRule::Unit(_, _) => arbitrary(),
        WeakCnfRule::Binary(h, a, b) => CnfRule::Binary(
            map[h.0 as int],
            map[a.0 as int],
            map[b.0 as int],
        ),
    }
}

/// The rules of `rules` that are no unit rules and whose head is in
/// component `c`, recast, in the order of `rules`.
pub open spec fn bucket_of<T>(rules: Seq<WeakCnfRule<T>>, map: Seq<Var>, c: int) -> Seq<CnfRule<T>>
    decreases rules.len(),
{
    if rules.len() == 0 {
        Seq::empty()
    } else {
        let rest = bucket_of(rules.drop_last(), map, c);
        if !(rules.last() is Unit) && recast(rules.last(), map).head() == c {
            rest.push(recast(rules.last(), map))
        } else {
            rest
        }
    }
}

/// What `bucket_of` holds.
pub proof fn lemma_bucket_of<T>(rules: Seq<WeakCnfRule<T>>, map: Seq<Var>, c: int, x: CnfRule<T>)
    ensures
        bucket_of(rules, map, c).contains(x) <==> exists|i: int|
            0 <= i < rules.len() && !(#[trigger] rules[i] is Unit) && recast(rules[i], map) == x
                && x.head() == c,
    decreases rules.len(),
{
    if rules.len() > 0 {
        let front = rules.drop_last();
        let rest = bucket_of(front, map, c);
        let all = bucket_of(rules, map, c);
        lemma_bucket_of(front, map, c, x);
        if all.contains(x) {
            let k = choose|k: int| 0 <= k < all.len() && all[k] == x;
            if k < rest.len() {
                assert(rest[k] == x);
                let i = choose|i: int|
                    0 <= i < front.len() && !(#[trigger] front[i] is Unit) && recast(front[i], map)
                        == x && x.head() == c;
                assert(rules[i] == front[i]);
            } else {
                assert(rules[rules.len() - 1] == rules.last());
            }
        }
        if exists|i: int|
            0 <= i < rules.len() && !(#[trigger] rules[i] is Unit) && recast(rules[i], map) == x
                && x.head() == c {
            let i = choose|i: int|
                0 <= i < rules.len() && !(#[trigger] rules[i] is Unit) && recast(rules[i], map) == x
                    && x.head() == c;
            if i < rules.len() - 1 {
                assert(front[i] == rules[i]);
                let k = choose|k: int| 0 <= k < rest.len() && rest[k] == x;
                assert(all[k] == x);
            } else {
                assert(all[rest.len() as int] == x);
            }
        }
    }
}

/// For each component, the rules that are no unit rules and whose head is
/// in it, with each variable replaced by its component.
pub fn get_nonunit_rules_at_each_scc<T: Term>(
    weak_cnf_rules: Vec<WeakCnfRule<T>>,
    n_sccs: usize,
    vars_map: &Vec<Var>,
) -> (nonunit_rules: Vec<Vec<CnfRule<T>>>)
    requires
        forall|i: int|
            0 <= i < weak_cnf_rules@.len() ==> weak_rule_in_range(
                #[trigger] weak_cnf_rules@[i],
                vars_map@.len() as int,
            ),
        forall|v: int| 0 <= v < vars_map@.len() ==> (#[trigger] vars_map@[v]).0 < n_sccs,
    ensures
        nonunit_rules@.len() == n_sccs,
        forall|c: int|
            0 <= c < n_sccs ==> (#[trigger] nonunit_rules@[c])@ == bucket_of(
                weak_cnf_rules@,
                vars_map@,
                c,
            ),
{
    let ghost rules = weak_cnf_rules@;
    let ghost map = vars_map@;
    let mut nonunit_rules: Vec<Vec<CnfRule<T>>> = Vec::new();
    let mut c: usize = 0;
    while c < n_sccs
        invariant
            c <= n_sccs,
            nonunit_rules@.len() == c,
            forall|x: int| 0 <= x < c ==> (#[trigger] nonunit_rules@[x])@.len() == 0,
        decreases n_sccs - c,
    {
        nonunit_rules.push(Vec::new());
        c += 1;
    }
    let mut i: usize = 0;
    while i < weak_cnf_rules.len()
        invariant
            i <= rules.len(),
            rules == weak_cnf_rules@,
            map == vars_map@,
            nonunit_rules@.len() == n_sccs,
            forall|k: int|
                0 <= k < rules.len() ==> weak_rule_in_range(#[trigger] rules[k], map.len() as int),
            forall|v: int| 0 <= v < map.len() ==> (#[trigger] map[v]).0 < n_sccs,
            forall|x: int|
                0 <= x < n_sccs ==> (#[trigger] nonunit_rules@[x])@ == bucket_of(
                    rules.take(i as int),
                    map,
                    x,
                ),
        decreases rules.len() - i,
    {
        proof {
            assert(rules.take(i + 1).drop_last() == rules.take(i as int));
            assert(weak_rule_in_range(rules[i as int], map.len() as int));
        }
        match &weak_cnf_rules[i] {
            WeakCnfRule::Terminal(var, term) => {
                let head = vars_map[var.0];
                nonunit_rules[head.0].push(CnfRule::Terminal(head, term.duplicate()));
            },
            WeakCnfRule::Binary(first, second, third) => {
                let head = vars_map[first.0];
                nonunit_rules[head.0].push(
                    CnfRule::Binary(head, vars_map[second.0], vars_map[third.0]),
                );
            },
            WeakCnfRule::Unit(_, _) => {},
        }
        i += 1;
    }
    proof {
        assert(rules.take(i as int) == rules);
    }
    nonunit_rules
}

} // verus!
