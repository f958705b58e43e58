//! The last pass: unit rules are taken out by drawing each cycle of them
//! together and handing the other rules on along what is left.

use vstd::prelude::*;
use crate::cnf::closure::{buckets_view, in_closure, listed_rising};
use crate::cnf::graph::{
    adjacency, graph_ok, has_edge, lemma_edge_reaches, lemma_reaches_self, lemma_reaches_step,
    lemma_reaches_trans, reaches, walk_between,
};
use crate::cnf::kahn::{closed_below, replace_unit_rules_at_each_scc};
use crate::cnf::quotient::{
    bucket_of, component_map, get_nonunit_rules_at_each_scc, get_reversed_quotient_graph,
    lemma_bucket_of, quotient_edge, recast, unit_adj, unit_graph,
};
use crate::cnf::scc::{is_condensation, listed_in, parts, StronglyConnectedComponents};
use crate::cnf::weak_cnf::{weak_rule_in_range, WeakCnf, WeakCnfRule};
use crate::cnf::{Cnf, CnfRule};
use crate::grammar::Var;
use crate::term::Term;

verus! {

/// Whether `map` gives two vertices the same number where each reaches the
/// other, and only there, and no edge leads to a vertex with a higher number.
pub open spec fn is_component_map(adj: Seq<Seq<usize>>, map: Seq<Var>) -> bool {
    &&& map.len() == adj.len()
    &&& forall|u: int, v: int|
        0 <= u < adj.len() && 0 <= v < adj.len() ==> #[trigger] linked(adj, map, u, v)
    &&& forall|u: int, v: int| #[trigger] has_edge(adj, u, v) ==> map[v].0 <= map[u].0
}

/// Whether `u` and `v` have the same number if each reaches the other, and
/// only then.
pub open spec fn linked(adj: Seq<Seq<usize>>, map: Seq<Var>, u: int, v: int) -> bool {
    map[u].0 == map[v].0 <==> reaches(adj, u, v) && reaches(adj, v, u)
}

/// The head of a rule.
pub open spec fn weak_head<T>(r: WeakCnfRule<T>) -> int {
    match r {
        WeakCnfRule::Terminal(h, _) => h.0 as int,
        WeakCnfRule::Unit(h, _) => h.0 as int,
        WeakCnfRule::Binary(h, _, _) => h.0 as int,
    }
}

/// Whether `map` gives each vertex the number of its component in the
/// depth-first search of `adj`: the components are numbered in the order
/// in which the search closes them.
pub open spec fn numbered_by_search(adj: Seq<Seq<usize>>, map: Seq<Var>) -> bool {
    exists|k: nat|
        {
            let m = #[trigger] crate::cnf::search::Search::initial(adj).steps(k);
            &&& m.done()
            &&& forall|v: int| 0 <= v < map.len() ==> (#[trigger] map[v]).0 == m.comp[v]
        }
}

/// Whether the numbers that `map` gives are the numbers from 0 up to the
/// greatest of them, none left out.
pub open spec fn dense(map: Seq<Var>) -> bool {
    forall|v: int, c: int|
        0 <= v < map.len() && 0 <= c <= (#[trigger] map[v]).0 ==> #[trigger] inhabited(map, c)
}

/// Whether `x` is what a rule of `rules` that is no unit rule becomes for a
/// variable `v` that reaches the head of that rule by unit rules: the rule
/// with every variable replaced by its component, and the component of `v`
/// as its head.
pub open spec fn unit_closed<T>(
    rules: Seq<WeakCnfRule<T>>,
    n: int,
    map: Seq<Var>,
    x: CnfRule<T>,
) -> bool {
    exists|i: int, v: int|
        0 <= i < rules.len() && !(rules[i] is Unit) && 0 <= v < n && #[trigger] reaches(
            unit_adj(rules, n),
            v,
            weak_head(rules[i]),
        ) && x == recast(rules[i], map).with_head(map[v])
}

/// Along a walk the number of the component does not rise.
pub proof fn lemma_walk_descends(adj: Seq<Seq<usize>>, map: Seq<Var>, w: Seq<int>, u: int, v: int)
    requires
        graph_ok(adj),
        map.len() == adj.len(),
        forall|a: int, b: int| #[trigger] has_edge(adj, a, b) ==> map[b].0 <= map[a].0,
        walk_between(adj, w, u, v),
    ensures
        map[v].0 <= map[u].0,
    decreases w.len(),
{
    if w.len() > 1 {
        let front = w.drop_last();
        let p = w[w.len() - 2];
        assert(has_edge(adj, w[w.len() - 2], w[w.len() - 2 + 1]));
        assert forall|i: int| 0 <= i < front.len() - 1 implies has_edge(
            adj,
            #[trigger] front[i],
            front[i + 1],
        ) by {
            assert(has_edge(adj, w[i], w[i + 1]));
        }
        assert(walk_between(adj, front, u, p));
        lemma_walk_descends(adj, map, front, u, p);
    }
}

/// The numbers that the components of a condensation give the vertices
/// are a component map.
pub proof fn lemma_component_map(adj: Seq<Seq<usize>>, sccs: Seq<Seq<usize>>, map: Seq<Var>)
    requires
        graph_ok(adj),
        is_condensation(adj, sccs),
        map.len() == adj.len(),
        forall|c: int, k: int|
            0 <= c < sccs.len() && 0 <= k < sccs[c].len() ==> map[(#[trigger] sccs[c][k]) as int].0
                == c,
    ensures
        is_component_map(adj, map),
{
    assert forall|a: int, b: int| #[trigger] has_edge(adj, a, b) implies map[b].0
        <= map[a].0 by {
        let k = choose|k: int| 0 <= k < adj[a].len() && #[trigger] adj[a][k] == b;
        assert(adj[a][k] < adj.len());
        assert(listed_in(sccs, a));
        assert(listed_in(sccs, b));
        let (c1, k1) = choose|c1: int, k1: int|
            0 <= c1 < sccs.len() && 0 <= k1 < sccs[c1].len() && #[trigger] sccs[c1][k1] == a;
        let (c2, k2) = choose|c2: int, k2: int|
            0 <= c2 < sccs.len() && 0 <= k2 < sccs[c2].len() && #[trigger] sccs[c2][k2] == b;
        assert(has_edge(adj, sccs[c1][k1] as int, sccs[c2][k2] as int));
    }
    assert forall|u: int, v: int|
        0 <= u < adj.len() && 0 <= v < adj.len() implies #[trigger] linked(adj, map, u, v) by {
        assert(listed_in(sccs, u));
        assert(listed_in(sccs, v));
        let (c1, k1) = choose|c1: int, k1: int|
            0 <= c1 < sccs.len() && 0 <= k1 < sccs[c1].len() && #[trigger] sccs[c1][k1] == u;
        let (c2, k2) = choose|c2: int, k2: int|
            0 <= c2 < sccs.len() && 0 <= k2 < sccs[c2].len() && #[trigger] sccs[c2][k2] == v;
        if c1 == c2 {
            assert(reaches(adj, sccs[c1][k1] as int, sccs[c1][k2] as int));
            assert(reaches(adj, sccs[c1][k2] as int, sccs[c1][k1] as int));
        }
        if reaches(adj, u, v) && reaches(adj, v, u) {
            let w1 = choose|w: Seq<int>| walk_between(adj, w, u, v);
            let w2 = choose|w: Seq<int>| walk_between(adj, w, v, u);
            lemma_walk_descends(adj, map, w1, u, v);
            lemma_walk_descends(adj, map, w2, v, u);
        }
    }
}

/// Whether `rq` is the graph of the components of `adj` under `map`, with
/// its edges turned round.
pub open spec fn is_reversed_quotient(
    adj: Seq<Seq<usize>>,
    map: Seq<Var>,
    rq: Seq<Seq<usize>>,
) -> bool {
    &&& graph_ok(rq)
    &&& forall|x: int, y: int|
        0 <= x < rq.len() ==> (#[trigger] rq[x].contains(y as usize) && 0 <= y <= usize::MAX
            <==> x != y && quotient_edge(adj, map, x, y))
    &&& forall|v: int| 0 <= v < map.len() ==> (#[trigger] map[v]).0 < rq.len()
}

/// A walk in the graph leads from the component of its end to that of its
/// start in the graph of the components.
pub proof fn lemma_walk_in_quotient(
    adj: Seq<Seq<usize>>,
    map: Seq<Var>,
    rq: Seq<Seq<usize>>,
    w: Seq<int>,
    u: int,
    v: int,
)
    requires
        graph_ok(adj),
        map.len() == adj.len(),
        is_reversed_quotient(adj, map, rq),
        walk_between(adj, w, u, v),
    ensures
        reaches(rq, map[v].0 as int, map[u].0 as int),
    decreases w.len(),
{
    if w.len() == 1 {
        lemma_reaches_self(rq, map[u].0 as int);
    } else {
        let rest = w.subrange(1, w.len() as int);
        let p = w[1];
        assert(has_edge(adj, w[0int], w[0int + 1]));
        let k = choose|k: int| 0 <= k < adj[u].len() && #[trigger] adj[u][k] == p;
        assert(adj[u][k] < adj.len());
        assert forall|i: int| 0 <= i < rest.len() - 1 implies has_edge(
            adj,
            #[trigger] rest[i],
            rest[i + 1],
        ) by {
            assert(has_edge(adj, w[i + 1], w[i + 1 + 1]));
        }
        assert(walk_between(adj, rest, p, v));
        lemma_walk_in_quotient(adj, map, rq, rest, p, v);
        let x = map[p].0 as int;
        let y = map[u].0 as int;
        if x != y {
            assert(map[adj[u][k] as int].0 == x);
            assert(quotient_edge(adj, map, x, y));
            assert(rq[x].contains(y as usize));
            let j = choose|j: int| 0 <= j < rq[x].len() && rq[x][j] == y as usize;
            assert(rq[x][j] == y);
            assert(has_edge(rq, x, y));
            lemma_reaches_step(rq, map[v].0 as int, x, y);
        }
    }
}

/// A walk in the graph of the components, from the component of `h` to
/// that of `v`, shows that `v` reaches `h` in the graph.
pub proof fn lemma_walk_from_quotient(
    adj: Seq<Seq<usize>>,
    map: Seq<Var>,
    rq: Seq<Seq<usize>>,
    w: Seq<int>,
    h: int,
    v: int,
)
    requires
        graph_ok(adj),
        is_component_map(adj, map),
        is_reversed_quotient(adj, map, rq),
        0 <= h < adj.len(),
        0 <= v < adj.len(),
        walk_between(rq, w, map[h].0 as int, map[v].0 as int),
    ensures
        reaches(adj, v, h),
    decreases w.len(),
{
    if w.len() == 1 {
        assert(linked(adj, map, v, h));
    } else {
        let front = w.drop_last();
        let x = w[w.len() - 2];
        let y = map[v].0 as int;
        assert(has_edge(rq, w[w.len() - 2], w[w.len() - 2 + 1]));
        let j = choose|j: int| 0 <= j < rq[x].len() && #[trigger] rq[x][j] == y;
        assert(rq[x].contains(y as usize));
        assert(quotient_edge(adj, map, x, y));
        let (a, k) = choose|a: int, k: int|
            0 <= a < adj.len() && 0 <= k < adj[a].len() && (a < adj.len() || (a == adj.len() && k
                < 0)) && map[(#[trigger] adj[a][k]) as int].0 == x && map[a].0 == y;
        let b = adj[a][k] as int;
        assert(b < adj.len());
        assert(has_edge(adj, a, b));
        assert forall|i: int| 0 <= i < front.len() - 1 implies has_edge(
            rq,
            #[trigger] front[i],
            front[i + 1],
        ) by {
            assert(has_edge(rq, w[i], w[i + 1]));
        }
        assert(walk_between(rq, front, map[h].0 as int, map[b].0 as int));
        lemma_walk_from_quotient(adj, map, rq, front, h, b);
        assert(map[v].0 == map[a].0);
        assert(linked(adj, map, v, a));
        lemma_edge_reaches(adj, a, b);
        lemma_reaches_trans(adj, v, a, b);
        lemma_reaches_trans(adj, v, b, h);
    }
}

/// Whether some vertex has the number `c`.
pub open spec fn inhabited(map: Seq<Var>, c: int) -> bool {
    exists|v: int| 0 <= v < map.len() && (#[trigger] map[v]).0 == c
}

/// What the handing on of rules along the graph of the components gives
/// is what the unit rules give.
pub proof fn lemma_unit_closed<T>(
    rules: Seq<WeakCnfRule<T>>,
    map: Seq<Var>,
    rq: Seq<Seq<usize>>,
    own: Seq<Seq<CnfRule<T>>>,
    x: CnfRule<T>,
)
    requires
        forall|i: int| 0 <= i < rules.len() ==> weak_rule_in_range(#[trigger] rules[i], map.len() as int),
        graph_ok(unit_adj(rules, map.len() as int)),
        is_component_map(unit_adj(rules, map.len() as int), map),
        is_reversed_quotient(unit_adj(rules, map.len() as int), map, rq),
        own.len() == rq.len(),
        forall|c: int| 0 <= c < rq.len() ==> (#[trigger] own[c]) == bucket_of(rules, map, c),
        forall|c: int| 0 <= c < rq.len() ==> #[trigger] inhabited(map, c),
    ensures
        closed_below(rq, own, rq.len() as int, x) <==> unit_closed(rules, map.len() as int, map, x),
{
    let n = map.len() as int;
    let adj = unit_adj(rules, n);
    if closed_below(rq, own, rq.len() as int, x) {
        let c = x.head();
        let (c1, j) = choose|c1: int, j: int|
            0 <= c1 < own.len() && 0 <= j < own[c1].len() && reaches(rq, c1, c) && x == (
            #[trigger] own[c1][j]).with_head(Var(c as usize));
        lemma_bucket_of(rules, map, c1, own[c1][j]);
        assert(bucket_of(rules, map, c1).contains(own[c1][j]));
        let i = choose|i: int|
            0 <= i < rules.len() && !(#[trigger] rules[i] is Unit) && recast(rules[i], map)
                == own[c1][j] && own[c1][j].head() == c1;
        let h = weak_head(rules[i]);
        assert(weak_rule_in_range(rules[i], n));
        assert(map[h].0 == c1);
        assert(inhabited(map, c));
        let v = choose|v: int| 0 <= v < map.len() && (#[trigger] map[v]).0 == c;
        let w = choose|w: Seq<int>| walk_between(rq, w, c1, c);
        lemma_walk_from_quotient(adj, map, rq, w, h, v);
        assert(map[v] == Var(c as usize));
        assert(reaches(unit_adj(rules, n), v, weak_head(rules[i])));
    }
    if unit_closed(rules, n, map, x) {
        let (i, v) = choose|i: int, v: int|
            0 <= i < rules.len() && !(rules[i] is Unit) && 0 <= v < n && #[trigger] reaches(
                unit_adj(rules, n),
                v,
                weak_head(rules[i]),
            ) && x == recast(rules[i], map).with_head(map[v]);
        let h = weak_head(rules[i]);
        assert(weak_rule_in_range(rules[i], n));
        let w = choose|w: Seq<int>| walk_between(adj, w, v, h);
        lemma_walk_in_quotient(adj, map, rq, w, v, h);
        let c1 = map[h].0 as int;
        let c = map[v].0 as int;
        let y = recast(rules[i], map);
        lemma_bucket_of(rules, map, c1, y);
        assert(own[c1].contains(y));
        let j = choose|j: int| 0 <= j < own[c1].len() && own[c1][j] == y;
        assert(x == own[c1][j].with_head(Var(c as usize)));
        assert(x.head() == c);
        assert(in_closure(rq, own, c, x));
    }
}

/// There are no more components than vertices.
pub proof fn lemma_components_bounded(adj: Seq<Seq<usize>>, sccs: Seq<Seq<usize>>)
    requires
        is_condensation(adj, sccs),
    ensures
        sccs.len() <= adj.len(),
{
    let codes = Seq::new(sccs.len(), |c: int| sccs[c][0] as int);
    assert forall|a: int, b: int| 0 <= a < codes.len() && 0 <= b < codes.len() && a
        != b implies codes[a] != codes[b] by {
        assert(sccs[a].len() > 0 && sccs[b].len() > 0);
        if sccs[a][0] == sccs[b][0] {
            assert(a == b);
        }
    }
    assert forall|c: int| 0 <= c < codes.len() implies 0 <= #[trigger] codes[c] < adj.len() by {
        assert(sccs[c].len() > 0);
        assert(sccs[c][0] < adj.len());
    }
    crate::counting::lemma_distinct_codes_bounded(codes, adj.len() as int);
}

/// Takes the unit rules out of a grammar in weak Chomsky normal form.
///
/// The variables that reach each other by unit rules become one variable;
/// `vars_map` tells which. A rule of the result is a rule of `weak_cnf`
/// that is no unit rule, for a variable that reaches its head by unit
/// rules. The rules stand in rising order of their head and, among those
/// of one head, in rising order, each once.
pub fn eliminate_unit_rules<T: Term>(weak_cnf: WeakCnf<T>) -> (cnf: Cnf<T>)
    requires
        weak_cnf.wf(),
    ensures
        cnf.nullable == weak_cnf.nullable,
        is_component_map(unit_adj(weak_cnf.rules@, weak_cnf.n_vars()), cnf.vars_map@),
        dense(cnf.vars_map@),
        numbered_by_search(unit_adj(weak_cnf.rules@, weak_cnf.n_vars()), cnf.vars_map@),
        forall|v: int|
            0 <= v < cnf.vars_map@.len() ==> (#[trigger] cnf.vars_map@[v]).0 < cnf.nullable@.len(),
        listed_rising(cnf.rules@),
        forall|x: CnfRule<T>|
            #[trigger] cnf.rules@.contains(x) <==> unit_closed(
                weak_cnf.rules@,
                weak_cnf.n_vars(),
                cnf.vars_map@,
                x,
            ),
{
    let WeakCnf { nullable, rules: weak_rules } = weak_cnf;
    let n = nullable.len();
    let ghost rules = weak_rules@;
    let graph = unit_graph(&weak_rules, n);
    let ghost adj = adjacency(graph);
    let sccs = StronglyConnectedComponents::of(&graph);
    let vars_map = component_map(&sccs, n, Ghost(adj));
    let ghost map = vars_map@;
    proof {
        lemma_component_map(adj, parts(sccs), map);
        lemma_components_bounded(adj, parts(sccs));
        let ps = parts(sccs);
        let k = choose|k: nat|
            crate::cnf::scc::lists_components(
                ps,
                #[trigger] crate::cnf::search::Search::initial(adj).steps(k),
            );
        let m = crate::cnf::search::Search::initial(adj).steps(k);
        assert forall|v: int| 0 <= v < map.len() implies (#[trigger] map[v]).0 == m.comp[v] by {
            assert(listed_in(ps, v));
            let (c1, k1) = choose|c1: int, k1: int|
                0 <= c1 < ps.len() && 0 <= k1 < ps[c1].len() && #[trigger] ps[c1][k1] == v;
            assert(sccs@[c1]@[k1] == v);
        }
        assert(numbered_by_search(adj, map));
    }
    let reversed_quotient_graph = get_reversed_quotient_graph(&graph, sccs.len(), &vars_map);
    let ghost rq = adjacency(reversed_quotient_graph);
    let nonunit_rules_at_each_scc = get_nonunit_rules_at_each_scc(
        weak_rules,
        sccs.len(),
        &vars_map,
    );
    let ghost own = buckets_view(nonunit_rules_at_each_scc);
    proof {
        assert(is_reversed_quotient(adj, map, rq));
        let rank = Seq::new(rq.len(), |c: int| c as nat);
        assert forall|x: int, k: int| 0 <= x < rq.len() && 0 <= k < rq[x].len() implies rank[x]
            < rank[(#[trigger] rq[x][k]) as int] by {
            let y = rq[x][k] as int;
            assert(rq[x].contains(y as usize));
            assert(quotient_edge(adj, map, x, y));
            let (a, e) = choose|a: int, e: int|
                0 <= a < adj.len() && 0 <= e < adj[a].len() && (a < adj.len() || (a == adj.len()
                    && e < 0)) && map[(#[trigger] adj[a][e]) as int].0 == x && map[a].0 == y;
            assert(adj[a][e] < adj.len());
            assert(has_edge(adj, a, adj[a][e] as int));
        }
        assert(crate::cnf::closure::ranked(rq, rank));
        assert forall|c: int, j: int| 0 <= c < own.len() && 0 <= j < own[c].len() implies (
        #[trigger] own[c][j]).head() == c by {
            lemma_bucket_of(rules, map, c, own[c][j]);
            assert(bucket_of(rules, map, c).contains(own[c][j]));
        }
        assert(own.len() == rq.len());
    }
    let rules_out = replace_unit_rules_at_each_scc(
        sccs.len(),
        reversed_quotient_graph,
        nonunit_rules_at_each_scc,
    );
    proof {
        let ps = parts(sccs);
        assert forall|c: int| 0 <= c < rq.len() implies #[trigger] inhabited(map, c) by {
            assert(ps[c].len() > 0);
            let v = ps[c][0] as int;
            assert(sccs@[c]@[0] == v);
            assert(map[v].0 == c);
        }
        assert forall|v: int, c: int|
            0 <= v < map.len() && 0 <= c <= (#[trigger] map[v]).0 implies #[trigger] inhabited(
            map,
            c,
        ) by {}
        assert forall|x: CnfRule<T>| #[trigger] rules_out@.contains(x) <==> unit_closed(
            rules,
            n as int,
            map,
            x,
        ) by {
            lemma_unit_closed(rules, map, rq, own, x);
        }
    }
    Cnf { nullable, rules: rules_out, vars_map }
}

} // verus!
