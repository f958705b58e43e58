//! Giving the terminals of long bodies variables of their own keeps the
//! language of every variable.

use vstd::prelude::*;
use crate::cnf::eliminate_nonsolitary_terminals::{fresh_rule, isolated, isolated_sym};
use crate::cnf::epsilon_language::lemma_node;
use crate::derivation::{
    derivation_of, derives, fringe, lemma_forest_fringe_one, lemma_forest_fringe_pointwise,
    tree_matches, tree_ok, Tree,
};
use crate::grammar::{productions_in_range, Production, Symbol, Var};

verus! {

/// Whether `g1` is `g`, a grammar over `n0` variables, with the terminals
/// `memo` of its long bodies replaced by variables of their own.
pub open spec fn isolation_of<T>(
    g: Seq<Production<T>>,
    n0: int,
    memo: Seq<T>,
    g1: Seq<Production<T>>,
) -> bool {
    &&& 0 <= n0
    &&& productions_in_range(g, n0)
    &&& g1.len() == g.len() + memo.len()
    &&& forall|i: int| 0 <= i < g.len() ==> isolated(g[i], #[trigger] g1[i], memo, n0)
    &&& forall|m: int| 0 <= m < memo.len() ==> #[trigger] g1[g.len() + m] == fresh_rule(memo, n0, m)
}

/// Whether every body of more than one symbol holds variables only.
pub open spec fn long_vars<T>(g: Seq<Production<T>>) -> bool {
    forall|r: int, j: int|
        0 <= r < g.len() && 0 <= j < g[r].body.len() && g[r].body.len() > 1
            ==> #[trigger] g[r].body[j] is Var
}

/// The new grammar is well formed over the old variables and the new ones,
/// and its long bodies hold variables only.
pub proof fn lemma_isolation_wf<T>(
    g: Seq<Production<T>>,
    n0: int,
    memo: Seq<T>,
    g1: Seq<Production<T>>,
)
    requires
        isolation_of(g, n0, memo, g1),
    ensures
        productions_in_range(g1, n0 + memo.len()),
        long_vars(g1),
{
    assert forall|i: int| 0 <= i < g1.len() implies {
        &&& 0 <= (#[trigger] g1[i]).head < n0 + memo.len()
        &&& forall|j: int|
            0 <= j < g1[i].body.len() ==> (#[trigger] g1[i].body[j] matches Symbol::Var(v) ==> v.0
                < n0 + memo.len())
    } by {
        if i < g.len() {
            assert(isolated(g[i], g1[i], memo, n0));
            assert forall|j: int| 0 <= j < g1[i].body.len() implies (
            #[trigger] g1[i].body[j] matches Symbol::Var(v) ==> v.0 < n0 + memo.len()) by {
                if g[i].body.len() > 1 {
                    assert(isolated_sym(g[i].body[j], g1[i].body[j], memo, n0));
                }
                assert(g[i].body[j] matches Symbol::Var(v) ==> v.0 < n0);
            }
        } else {
            assert(g1[g.len() + (i - g.len())] == fresh_rule(memo, n0, i - g.len()));
        }
    }
    assert forall|r: int, j: int|
        0 <= r < g1.len() && 0 <= j < g1[r].body.len() && g1[r].body.len()
            > 1 implies #[trigger] g1[r].body[j] is Var by {
        if r < g.len() {
            assert(isolated(g[r], g1[r], memo, n0));
            assert(isolated_sym(g[r].body[j], g1[r].body[j], memo, n0));
        } else {
            assert(g1[g.len() + (r - g.len())] == fresh_rule(memo, n0, r - g.len()));
        }
    }
}

/// Giving terminals variables of their own changes the length of no body:
/// the new grammar asks for as many auxiliary variables as the old one.
pub proof fn lemma_isolation_keeps_extra<T>(
    g: Seq<Production<T>>,
    n0: int,
    memo: Seq<T>,
    g1: Seq<Production<T>>,
)
    requires
        isolation_of(g, n0, memo, g1),
    ensures
        crate::cnf::eliminate_long_rules::extra(g1) == crate::cnf::eliminate_long_rules::extra(g),
{
    let front = g1.take(g.len() as int);
    assert forall|i: int| g.len() <= i < g1.len() implies (#[trigger] g1[i]).body.len() <= 2 by {
        assert(g1[g.len() + (i - g.len())] == fresh_rule(memo, n0, i - g.len()));
    }
    crate::cnf::long_language::lemma_extra_short_tail(g1, g.len() as int);
    assert forall|i: int| 0 <= i < front.len() implies (#[trigger] front[i]).body.len()
        == g[i].body.len() by {
        assert(isolated(g[i], g1[i], memo, n0));
    }
    crate::cnf::long_language::lemma_extra_by_lengths(front, g);
}

/// The tree that stands in the new grammar for the child `k` of a node
/// whose production has the symbol `s` at its place.
pub open spec fn lifted_kid<T>(
    g: Seq<Production<T>>,
    n0: int,
    g1: Seq<Production<T>>,
    long: bool,
    s: Symbol<T>,
    k: Tree<T>,
) -> Tree<T> {
    match k {
        Tree::Leaf(a) => if long {
            Tree::Node(g.len() + (s->Var_0).0 - n0, seq![k])
        } else {
            k
        },
        Tree::Node(r, _) => choose|t: Tree<T>| derivation_of(g1, t, g[r].head, fringe(k)),
    }
}

/// What a variable derives, it derives in the new grammar.
pub proof fn lemma_iso_forward<T>(
    g: Seq<Production<T>>,
    n0: int,
    memo: Seq<T>,
    g1: Seq<Production<T>>,
    t: Tree<T>,
)
    requires
        isolation_of(g, n0, memo, g1),
        t is Node,
        tree_ok(g, t),
    ensures
        derives(g1, g[t->Node_0].head, fringe(t)),
    decreases t,
{
    let r = t->Node_0;
    let kids = t->Node_1;
    let body = g[r].body;
    let long = body.len() > 1;
    assert(isolated(g[r], g1[r], memo, n0));
    let kids1 = Seq::new(kids.len(), |j: int| lifted_kid(g, n0, g1, long, g1[r].body[j], kids[j]));
    assert forall|j: int| 0 <= j < kids.len() implies tree_matches(
        g1,
        #[trigger] kids1[j],
        g1[r].body[j],
    ) && tree_ok(g1, kids1[j]) && fringe(kids1[j]) == fringe(kids[j]) by {
        let k = kids[j];
        assert(tree_matches(g, k, body[j]) && tree_ok(g, k));
        if long {
            assert(isolated_sym(body[j], g1[r].body[j], memo, n0));
        }
        match k {
            Tree::Leaf(a) => {
                if long {
                    let u = g1[r].body[j]->Var_0;
                    let m = u.0 - n0;
                    assert(g1[g.len() + m] == fresh_rule(memo, n0, m));
                    assert(g1[g.len() + m].body =~= seq![Symbol::Term(a)]);
                    assert forall|i: int| 0 <= i < seq![k].len() implies tree_matches(
                        g1,
                        #[trigger] seq![k][i],
                        g1[g.len() + m].body[i],
                    ) && tree_ok(g1, seq![k][i]) by {}
                    lemma_forest_fringe_one(k);
                }
            },
            Tree::Node(r2, _) => {
                lemma_iso_forward(g, n0, memo, g1, k);
                let t1 = choose|t1: Tree<T>| derivation_of(g1, t1, g[r2].head, fringe(k));
                assert(kids1[j] == t1);
            },
        }
    }
    lemma_forest_fringe_pointwise(kids1, kids);
    lemma_node(g1, r, kids1);
}

/// The tree that stands in the old grammar for the child `k` of a node.
pub open spec fn lowered_kid<T>(
    g: Seq<Production<T>>,
    memo: Seq<T>,
    g1: Seq<Production<T>>,
    k: Tree<T>,
) -> Tree<T> {
    match k {
        Tree::Leaf(a) => k,
        Tree::Node(r, _) => if r >= g.len() {
            Tree::Leaf(memo[r - g.len()])
        } else {
            choose|t: Tree<T>| derivation_of(g, t, g1[r].head, fringe(k))
        },
    }
}

/// What a variable of the old grammar derives in the new one, it derives
/// in the old one.
pub proof fn lemma_iso_backward<T>(
    g: Seq<Production<T>>,
    n0: int,
    memo: Seq<T>,
    g1: Seq<Production<T>>,
    t: Tree<T>,
)
    requires
        isolation_of(g, n0, memo, g1),
        t is Node,
        tree_ok(g1, t),
        t->Node_0 < g.len(),
    ensures
        derives(g, g1[t->Node_0].head, fringe(t)),
    decreases t,
{
    let r = t->Node_0;
    let kids = t->Node_1;
    let body = g[r].body;
    let long = body.len() > 1;
    assert(isolated(g[r], g1[r], memo, n0));
    let kids0 = Seq::new(kids.len(), |j: int| lowered_kid(g, memo, g1, kids[j]));
    assert forall|j: int| 0 <= j < kids.len() implies tree_matches(
        g,
        #[trigger] kids0[j],
        body[j],
    ) && tree_ok(g, kids0[j]) && fringe(kids0[j]) == fringe(kids[j]) by {
        let k = kids[j];
        assert(tree_matches(g1, k, g1[r].body[j]) && tree_ok(g1, k));
        if long {
            assert(isolated_sym(body[j], g1[r].body[j], memo, n0));
        }
        match k {
            Tree::Leaf(a) => {},
            Tree::Node(r2, kk) => {
                if r2 >= g.len() {
                    let m = r2 - g.len();
                    assert(g1[g.len() + m] == fresh_rule(memo, n0, m));
                    assert(g1[r2].body =~= seq![Symbol::Term(memo[m])]);
                    assert(tree_matches(g1, kk[0], g1[r2].body[0]));
                    assert(kk =~= seq![kk[0]]);
                    lemma_forest_fringe_one(kk[0]);
                    match body[j] {
                        Symbol::Var(v) => {
                            assert(v.0 < n0);
                        },
                        Symbol::Term(_) => {},
                    }
                } else {
                    assert(isolated(g[r2], g1[r2], memo, n0));
                    match body[j] {
                        Symbol::Var(v) => {},
                        Symbol::Term(_) => {
                            assert(0 <= g[r2].head < n0);
                        },
                    }
                    lemma_iso_backward(g, n0, memo, g1, k);
                    let t0 = choose|t0: Tree<T>| derivation_of(g, t0, g1[r2].head, fringe(k));
                    assert(kids0[j] == t0);
                }
            },
        }
    }
    lemma_forest_fringe_pointwise(kids0, kids);
    lemma_node(g, r, kids0);
}

/// Giving the terminals of long bodies variables of their own keeps the
/// language of every variable of the old grammar.
pub proof fn lemma_isolation_keeps_language<T>(
    g: Seq<Production<T>>,
    n0: int,
    memo: Seq<T>,
    g1: Seq<Production<T>>,
    v: int,
    w: Seq<T>,
)
    requires
        isolation_of(g, n0, memo, g1),
        0 <= v < n0,
    ensures
        derives(g1, v, w) <==> derives(g, v, w),
{
    if derives(g, v, w) {
        let t = choose|t: Tree<T>| derivation_of(g, t, v, w);
        lemma_iso_forward(g, n0, memo, g1, t);
    }
    if derives(g1, v, w) {
        let t = choose|t: Tree<T>| derivation_of(g1, t, v, w);
        let r = t->Node_0;
        if r >= g.len() {
            assert(g1[g.len() + (r - g.len())] == fresh_rule(memo, n0, r - g.len()));
        }
        assert(isolated(g[r], g1[r], memo, n0));
        lemma_iso_backward(g, n0, memo, g1, t);
    }
}

} // verus!
