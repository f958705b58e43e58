//! Taking the unit rules out keeps the language of every variable.

use vstd::prelude::*;
use crate::cnf::eliminate_unit_rules::{is_component_map, linked, unit_closed, weak_head};
use crate::cnf::graph::{
    has_edge, lemma_reaches_self, lemma_reaches_step, lemma_reaches_trans, reaches, walk_between,
};
use crate::cnf::quotient::{has_unit_rule, lemma_unit_adj_ok, lemma_unit_edge, recast, unit_adj};
use crate::cnf::weak_cnf::{weak_production, weak_productions, weak_rule_in_range, WeakCnfRule};
use crate::cnf::{cnf_productions, CnfRule};
use crate::derivation::{
    derivation_of, derives, fringe, lemma_forest_fringe_one, lemma_forest_fringe_two, tree_matches,
    tree_ok, Tree,
};
use crate::grammar::{Symbol, Var};

verus! {

/// Whether `cnf` is what taking the unit rules out of `weak`, a grammar
/// over `n` variables, gives, with `map` telling the component of each
/// variable.
pub open spec fn unit_free_of<T>(
    weak: Seq<WeakCnfRule<T>>,
    n: int,
    map: Seq<Var>,
    cnf: Seq<CnfRule<T>>,
) -> bool {
    &&& forall|i: int| 0 <= i < weak.len() ==> weak_rule_in_range(#[trigger] weak[i], n)
    &&& map.len() == n
    &&& is_component_map(unit_adj(weak, n), map)
    &&& forall|x: CnfRule<T>| #[trigger] cnf.contains(x) <==> unit_closed(weak, n, map, x)
}

/// What a variable derives, every variable derives that reaches it by
/// unit rules.
pub proof fn lemma_unit_chain<T>(
    weak: Seq<WeakCnfRule<T>>,
    n: int,
    walk: Seq<int>,
    v: int,
    h: int,
    w: Seq<T>,
)
    requires
        0 <= n,
        forall|i: int| 0 <= i < weak.len() ==> weak_rule_in_range(#[trigger] weak[i], n),
        walk_between(unit_adj(weak, n), walk, v, h),
        derives(weak_productions(weak), h, w),
    ensures
        derives(weak_productions(weak), v, w),
    decreases walk.len(),
{
    let g = weak_productions(weak);
    let adj = unit_adj(weak, n);
    lemma_unit_adj_ok(weak, n);
    if walk.len() > 1 {
        let rest = walk.subrange(1, walk.len() as int);
        let p = walk[1];
        assert(has_edge(adj, walk[0int], walk[0int + 1]));
        assert forall|i: int| 0 <= i < rest.len() - 1 implies has_edge(
            adj,
            #[trigger] rest[i],
            rest[i + 1],
        ) by {
            assert(has_edge(adj, walk[i + 1], walk[i + 1 + 1]));
        }
        let k = choose|k: int| 0 <= k < adj[v].len() && #[trigger] adj[v][k] == p;
        assert(adj[v][k] < adj.len());
        assert(walk_between(adj, rest, p, h));
        lemma_unit_chain(weak, n, rest, p, h, w);
        lemma_unit_edge(weak, n, v, p);
        let e = choose|e: int|
            0 <= e < weak.len() && (#[trigger] weak[e] matches WeakCnfRule::Unit(a, b) && a.0 == v
                && b.0 == p);
        let t1 = choose|t1: Tree<T>| derivation_of(g, t1, p, w);
        let t = Tree::Node(e, seq![t1]);
        lemma_forest_fringe_one(t1);
        assert(g[e] == weak_production(weak[e]));
        assert(derivation_of(g, t, v, w));
    }
}

/// What a variable derives in `weak`, the component of every variable that
/// reaches it by unit rules derives in `cnf`.
pub proof fn lemma_unit_forward<T>(
    weak: Seq<WeakCnfRule<T>>,
    n: int,
    map: Seq<Var>,
    cnf: Seq<CnfRule<T>>,
    t: Tree<T>,
    x: int,
)
    requires
        unit_free_of(weak, n, map, cnf),
        t is Node,
        tree_ok(weak_productions(weak), t),
        0 <= x < n,
        reaches(unit_adj(weak, n), x, weak_productions(weak)[t->Node_0].head),
    ensures
        derives(cnf_productions(cnf), map[x].0 as int, fringe(t)),
    decreases t,
{
    let g = weak_productions(weak);
    let c = cnf_productions(cnf);
    let adj = unit_adj(weak, n);
    let i = t->Node_0;
    let kids = t->Node_1;
    assert(g[i] == weak_production(weak[i]));
    assert(weak_rule_in_range(weak[i], n));
    match weak[i] {
        WeakCnfRule::Unit(h, u) => {
            let k = kids[0];
            assert(tree_matches(g, k, g[i].body[0]) && tree_ok(g, k));
            assert(has_unit_rule(weak, h.0 as int, u.0 as int));
            lemma_unit_edge(weak, n, h.0 as int, u.0 as int);
            lemma_reaches_step(adj, x, h.0 as int, u.0 as int);
            lemma_unit_forward(weak, n, map, cnf, k, x);
            assert(kids =~= seq![k]);
            lemma_forest_fringe_one(k);
        },
        WeakCnfRule::Terminal(h, a) => {
            let k = kids[0];
            assert(tree_matches(g, k, g[i].body[0]));
            assert(kids =~= seq![k]);
            lemma_forest_fringe_one(k);
            let rule = CnfRule::Terminal(map[x], a);
            assert(reaches(unit_adj(weak, n), x, weak_head(weak[i])));
            assert(unit_closed(weak, n, map, rule));
            assert(cnf.contains(rule));
            let q = choose|q: int| 0 <= q < cnf.len() && cnf[q] == rule;
            assert(c[q] == rule.production());
            let t2 = Tree::Node(q, seq![k]);
            assert(c[q].body =~= seq![Symbol::Term(a)]);
            assert(k == Tree::Leaf(a));
            assert forall|j: int| 0 <= j < seq![k].len() implies tree_matches(
                c,
                #[trigger] seq![k][j],
                c[q].body[j],
            ) && tree_ok(c, seq![k][j]) by {}
            assert(tree_ok(c, t2));
            assert(derivation_of(c, t2, map[x].0 as int, fringe(t)));
        },
        WeakCnfRule::Binary(h, a, b) => {
            let k1 = kids[0];
            let k2 = kids[1];
            assert(tree_matches(g, k1, g[i].body[0]) && tree_ok(g, k1));
            assert(tree_matches(g, k2, g[i].body[1]) && tree_ok(g, k2));
            assert(kids =~= seq![k1, k2]);
            lemma_forest_fringe_two(k1, k2);
            lemma_reaches_self(adj, a.0 as int);
            lemma_reaches_self(adj, b.0 as int);
            lemma_unit_forward(weak, n, map, cnf, k1, a.0 as int);
            lemma_unit_forward(weak, n, map, cnf, k2, b.0 as int);
            let t1 = choose|t1: Tree<T>| derivation_of(c, t1, map[a.0 as int].0 as int, fringe(k1));
            let t2 = choose|t2: Tree<T>| derivation_of(c, t2, map[b.0 as int].0 as int, fringe(k2));
            let rule = CnfRule::Binary(map[x], map[a.0 as int], map[b.0 as int]);
            assert(reaches(unit_adj(weak, n), x, weak_head(weak[i])));
            assert(unit_closed(weak, n, map, rule));
            assert(cnf.contains(rule));
            let q = choose|q: int| 0 <= q < cnf.len() && cnf[q] == rule;
            assert(c[q] == rule.production());
            let t3 = Tree::Node(q, seq![t1, t2]);
            lemma_forest_fringe_two(t1, t2);
            assert(derivation_of(c, t3, map[x].0 as int, fringe(t)));
        },
    }
}

/// What the component of a variable derives in `cnf`, the variable derives
/// in `weak`.
pub proof fn lemma_unit_backward<T>(
    weak: Seq<WeakCnfRule<T>>,
    n: int,
    map: Seq<Var>,
    cnf: Seq<CnfRule<T>>,
    t: Tree<T>,
    v: int,
)
    requires
        unit_free_of(weak, n, map, cnf),
        t is Node,
        tree_ok(cnf_productions(cnf), t),
        0 <= v < n,
        cnf_productions(cnf)[t->Node_0].head == map[v].0,
    ensures
        derives(weak_productions(weak), v, fringe(t)),
    decreases t,
{
    let g = weak_productions(weak);
    let c = cnf_productions(cnf);
    let adj = unit_adj(weak, n);
    let q = t->Node_0;
    let kids = t->Node_1;
    let rule = cnf[q];
    assert(c[q] == rule.production());
    assert(cnf.contains(rule));
    assert(unit_closed(weak, n, map, rule));
    let (i, x) = choose|i: int, x: int|
        0 <= i < weak.len() && !(weak[i] is Unit) && 0 <= x < n && #[trigger] reaches(
            unit_adj(weak, n),
            x,
            weak_head(weak[i]),
        ) && rule == recast(weak[i], map).with_head(map[x]);
    let h = weak_head(weak[i]);
    assert(weak_rule_in_range(weak[i], n));
    assert(g[i] == weak_production(weak[i]));
    assert(map[x].0 == map[v].0);
    lemma_unit_adj_ok(weak, n);
    assert(linked(adj, map, v, x));
    lemma_reaches_trans(adj, v, x, h);
    let walk = choose|walk: Seq<int>| walk_between(adj, walk, v, h);
    match weak[i] {
        WeakCnfRule::Unit(_, _) => {},
        WeakCnfRule::Terminal(_, a) => {
            let k = kids[0];
            assert(tree_matches(c, k, c[q].body[0]));
            assert(kids =~= seq![k]);
            lemma_forest_fringe_one(k);
            let t2 = Tree::Node(i, seq![k]);
            assert(c[q].body =~= seq![Symbol::Term(a)]);
            assert(g[i].body =~= seq![Symbol::Term(a)]);
            assert(k == Tree::Leaf(a));
            assert forall|j: int| 0 <= j < seq![k].len() implies tree_matches(
                g,
                #[trigger] seq![k][j],
                g[i].body[j],
            ) && tree_ok(g, seq![k][j]) by {}
            assert(tree_ok(g, t2));
            assert(derivation_of(g, t2, h, fringe(t)));
            lemma_unit_chain(weak, n, walk, v, h, fringe(t));
        },
        WeakCnfRule::Binary(_, a, b) => {
            let k1 = kids[0];
            let k2 = kids[1];
            assert(tree_matches(c, k1, c[q].body[0]) && tree_ok(c, k1));
            assert(tree_matches(c, k2, c[q].body[1]) && tree_ok(c, k2));
            assert(kids =~= seq![k1, k2]);
            lemma_forest_fringe_two(k1, k2);
            lemma_unit_backward(weak, n, map, cnf, k1, a.0 as int);
            lemma_unit_backward(weak, n, map, cnf, k2, b.0 as int);
            let t1 = choose|t1: Tree<T>| derivation_of(g, t1, a.0 as int, fringe(k1));
            let t2 = choose|t2: Tree<T>| derivation_of(g, t2, b.0 as int, fringe(k2));
            let t3 = Tree::Node(i, seq![t1, t2]);
            lemma_forest_fringe_two(t1, t2);
            assert(derivation_of(g, t3, h, fringe(t)));
            lemma_unit_chain(weak, n, walk, v, h, fringe(t));
        },
    }
}

/// Taking the unit rules out keeps the language: a variable derives a word
/// in the grammar with unit rules if and only if its component derives
/// the word in the grammar without.
pub proof fn lemma_unit_rules_keep_language<T>(
    weak: Seq<WeakCnfRule<T>>,
    n: int,
    map: Seq<Var>,
    cnf: Seq<CnfRule<T>>,
    v: int,
    w: Seq<T>,
)
    requires
        unit_free_of(weak, n, map, cnf),
        0 <= v < n,
    ensures
        derives(cnf_productions(cnf), map[v].0 as int, w) <==> derives(
            weak_productions(weak),
            v,
            w,
        ),
{
    let g = weak_productions(weak);
    let c = cnf_productions(cnf);
    if derives(g, v, w) {
        let t = choose|t: Tree<T>| derivation_of(g, t, v, w);
        lemma_reaches_self(unit_adj(weak, n), v);
        lemma_unit_forward(weak, n, map, cnf, t, v);
    }
    if derives(c, map[v].0 as int, w) {
        let t = choose|t: Tree<T>| derivation_of(c, t, map[v].0 as int, w);
        lemma_unit_backward(weak, n, map, cnf, t, v);
    }
}

} // verus!
