//! Taking the empty bodies out keeps every word of the language but the
//! empty one.

use vstd::prelude::*;
use crate::cnf::eliminate_epsilon_rules::{short_bodies, weak_of, weak_rules_of};
use crate::cnf::weak_cnf::{weak_production, weak_productions, WeakCnfRule};
use crate::derivation::{
    derivation_of, derives, forest_fringe, fringe, lemma_forest_fringe_one,
    lemma_forest_fringe_two, lemma_fringe_nonempty, tree_matches, tree_ok, Tree,
};
use crate::grammar::{productions, productions_in_range, Production, Rule, Symbol, Var};

verus! {

/// Whether `x` is one of the rules that `rule` becomes.
pub open spec fn weak_from<T>(rule: Rule<T>, nullable: Seq<bool>, x: WeakCnfRule<T>) -> bool {
    let h = rule.head;
    let b = rule.body@;
    if b.len() == 1 {
        match b[0] {
            Symbol::Term(t) => x == WeakCnfRule::Terminal(h, t),
            Symbol::Var(u) => x == WeakCnfRule::<T>::Unit(h, u),
        }
    } else if b.len() == 2 {
        match (b[0], b[1]) {
            (Symbol::Var(first), Symbol::Var(second)) => {
                ||| x == WeakCnfRule::<T>::Binary(h, first, second)
                ||| (nullable[first.0 as int] && x == WeakCnfRule::<T>::Unit(h, second))
                ||| (nullable[second.0 as int] && x == WeakCnfRule::<T>::Unit(h, first))
            },
            _ => false,
        }
    } else {
        false
    }
}

/// What `weak_of` holds.
pub proof fn lemma_weak_of<T>(rule: Rule<T>, nullable: Seq<bool>, x: WeakCnfRule<T>)
    ensures
        weak_of(rule, nullable).contains(x) <==> weak_from(rule, nullable, x),
{
    let h = rule.head;
    let b = rule.body@;
    let s = weak_of(rule, nullable);
    if s.contains(x) {
        let k = choose|k: int| 0 <= k < s.len() && s[k] == x;
        assert(s[k] == x);
    }
    if weak_from(rule, nullable, x) {
        if b.len() == 1 {
            assert(s[0] == x);
        } else {
            match (b[0], b[1]) {
                (Symbol::Var(first), Symbol::Var(second)) => {
                    if x == WeakCnfRule::<T>::Binary(h, first, second) {
                        assert(s[0] == x);
                    } else if nullable[first.0 as int] && x == WeakCnfRule::<T>::Unit(h, second) {
                        assert(s[1] == x);
                    } else {
                        assert(s[s.len() - 1] == x);
                    }
                },
                _ => {},
            }
        }
    }
}

/// A rule of the result is one of those that a rule of the list becomes.
pub proof fn lemma_weak_rules_of<T>(rules: Seq<Rule<T>>, nullable: Seq<bool>, x: WeakCnfRule<T>)
    ensures
        weak_rules_of(rules, nullable).contains(x) <==> exists|r: int|
            0 <= r < rules.len() && weak_from(#[trigger] rules[r], nullable, x),
    decreases rules.len(),
{
    if rules.len() > 0 {
        let front = rules.drop_last();
        let a = weak_rules_of(front, nullable);
        let b = weak_of(rules.last(), nullable);
        let all = weak_rules_of(rules, nullable);
        lemma_weak_rules_of(front, nullable, x);
        lemma_weak_of(rules.last(), nullable, x);
        if all.contains(x) {
            let k = choose|k: int| 0 <= k < all.len() && all[k] == x;
            if k < a.len() {
                assert(a[k] == x);
                let r = choose|r: int|
                    0 <= r < front.len() && weak_from(#[trigger] front[r], nullable, x);
                assert(rules[r] == front[r]);
            } else {
                assert(b[k - a.len()] == x);
                assert(weak_from(rules[rules.len() - 1], nullable, x));
            }
        }
        if exists|r: int| 0 <= r < rules.len() && weak_from(#[trigger] rules[r], nullable, x) {
            let r = choose|r: int| 0 <= r < rules.len() && weak_from(#[trigger] rules[r], nullable, x);
            if r < rules.len() - 1 {
                assert(front[r] == rules[r]);
                let k = choose|k: int| 0 <= k < a.len() && a[k] == x;
                assert(all[k] == x);
            } else {
                let k = choose|k: int| 0 <= k < b.len() && b[k] == x;
                assert(all[a.len() + k] == x);
            }
        }
    }
}

/// Whether `nullable` marks the variables of `rules` that derive the empty
/// word, and the bodies of `rules` are short.
pub open spec fn eps_ready<T>(rules: Seq<Rule<T>>, nullable: Seq<bool>) -> bool {
    &&& productions_in_range(productions(rules), nullable.len() as int)
    &&& short_bodies(productions(rules))
    &&& forall|v: int|
        0 <= v < nullable.len() ==> (#[trigger] nullable[v] <==> derives(
            productions(rules),
            v,
            Seq::<T>::empty(),
        ))
}

/// The tree of one production of the weak grammar over the trees `kids`.
pub proof fn lemma_weak_node<T>(
    rules: Seq<Rule<T>>,
    nullable: Seq<bool>,
    r: int,
    x: WeakCnfRule<T>,
    kids: Seq<Tree<T>>,
)
    requires
        0 <= r < rules.len(),
        weak_from(rules[r], nullable, x),
        kids.len() == weak_production(x).body.len(),
        forall|j: int|
            0 <= j < kids.len() ==> tree_matches(
                weak_productions(weak_rules_of(rules, nullable)),
                #[trigger] kids[j],
                weak_production(x).body[j],
            ) && tree_ok(weak_productions(weak_rules_of(rules, nullable)), kids[j]),
    ensures
        derives(
            weak_productions(weak_rules_of(rules, nullable)),
            weak_production(x).head,
            forest_fringe(kids),
        ),
{
    let weak = weak_rules_of(rules, nullable);
    let wg = weak_productions(weak);
    lemma_weak_rules_of(rules, nullable, x);
    let q = choose|q: int| 0 <= q < weak.len() && weak[q] == x;
    assert(wg[q] == weak_production(x));
    let t = Tree::Node(q, kids);
    assert(derivation_of(wg, t, weak_production(x).head, forest_fringe(kids)));
}

/// What a variable derives, and is not the empty word, it derives in the
/// weak grammar.
pub proof fn lemma_eps_forward<T>(rules: Seq<Rule<T>>, nullable: Seq<bool>, t: Tree<T>)
    requires
        eps_ready(rules, nullable),
        t is Node,
        tree_ok(productions(rules), t),
        fringe(t).len() > 0,
    ensures
        derives(
            weak_productions(weak_rules_of(rules, nullable)),
            productions(rules)[t->Node_0].head,
            fringe(t),
        ),
    decreases t,
{
    let g = productions(rules);
    let weak = weak_rules_of(rules, nullable);
    let wg = weak_productions(weak);
    let r = t->Node_0;
    let kids = t->Node_1;
    let h = rules[r].head;
    let body = g[r].body;
    assert(g[r].head == h.0);
    assert(body == rules[r].body@);
    if body.len() == 0 {
        assert(kids =~= Seq::<Tree<T>>::empty());
    } else if body.len() == 1 {
        let k = kids[0];
        assert(tree_matches(g, k, body[0]) && tree_ok(g, k));
        assert(kids =~= seq![k]);
        lemma_forest_fringe_one(k);
        match body[0] {
            Symbol::Term(a) => {
                let x = WeakCnfRule::Terminal(h, a);
                assert(weak_production(x).body =~= seq![Symbol::Term(a)]);
                assert(k == Tree::Leaf(a));
                lemma_weak_node(rules, nullable, r, x, seq![k]);
            },
            Symbol::Var(u) => {
                lemma_eps_forward(rules, nullable, k);
                let t1 = choose|t1: Tree<T>| derivation_of(wg, t1, u.0 as int, fringe(k));
                let x = WeakCnfRule::<T>::Unit(h, u);
                assert(weak_production(x).body =~= seq![Symbol::Var(u)]);
                lemma_forest_fringe_one(t1);
                lemma_weak_node(rules, nullable, r, x, seq![t1]);
            },
        }
    } else {
        let k1 = kids[0];
        let k2 = kids[1];
        assert(tree_matches(g, k1, body[0]) && tree_ok(g, k1));
        assert(tree_matches(g, k2, body[1]) && tree_ok(g, k2));
        assert(kids =~= seq![k1, k2]);
        lemma_forest_fringe_two(k1, k2);
        let a = body[0]->Var_0;
        let b = body[1]->Var_0;
        if fringe(k1).len() == 0 {
            assert(fringe(k1) =~= Seq::<T>::empty());
            assert(derivation_of(g, k1, a.0 as int, Seq::<T>::empty()));
            assert(nullable[a.0 as int]);
            assert(fringe(k1) + fringe(k2) =~= fringe(k2));
            lemma_eps_forward(rules, nullable, k2);
            let t2 = choose|t2: Tree<T>| derivation_of(wg, t2, b.0 as int, fringe(k2));
            let x = WeakCnfRule::<T>::Unit(h, b);
            assert(weak_production(x).body =~= seq![Symbol::Var(b)]);
            lemma_forest_fringe_one(t2);
            lemma_weak_node(rules, nullable, r, x, seq![t2]);
        } else if fringe(k2).len() == 0 {
            assert(fringe(k2) =~= Seq::<T>::empty());
            assert(derivation_of(g, k2, b.0 as int, Seq::<T>::empty()));
            assert(nullable[b.0 as int]);
            assert(fringe(k1) + fringe(k2) =~= fringe(k1));
            lemma_eps_forward(rules, nullable, k1);
            let t1 = choose|t1: Tree<T>| derivation_of(wg, t1, a.0 as int, fringe(k1));
            let x = WeakCnfRule::<T>::Unit(h, a);
            assert(weak_production(x).body =~= seq![Symbol::Var(a)]);
            lemma_forest_fringe_one(t1);
            lemma_weak_node(rules, nullable, r, x, seq![t1]);
        } else {
            lemma_eps_forward(rules, nullable, k1);
            lemma_eps_forward(rules, nullable, k2);
            let t1 = choose|t1: Tree<T>| derivation_of(wg, t1, a.0 as int, fringe(k1));
            let t2 = choose|t2: Tree<T>| derivation_of(wg, t2, b.0 as int, fringe(k2));
            let x = WeakCnfRule::<T>::Binary(h, a, b);
            assert(weak_production(x).body =~= seq![Symbol::Var(a), Symbol::Var(b)]);
            lemma_forest_fringe_two(t1, t2);
            lemma_weak_node(rules, nullable, r, x, seq![t1, t2]);
        }
    }
}

/// The tree of production `r` over the trees `kids`.
pub proof fn lemma_node<T>(g: Seq<Production<T>>, r: int, kids: Seq<Tree<T>>)
    requires
        0 <= r < g.len(),
        kids.len() == g[r].body.len(),
        forall|j: int|
            0 <= j < kids.len() ==> tree_matches(g, #[trigger] kids[j], g[r].body[j]) && tree_ok(
                g,
                kids[j],
            ),
    ensures
        derives(g, g[r].head, forest_fringe(kids)),
{
    assert(derivation_of(g, Tree::Node(r, kids), g[r].head, forest_fringe(kids)));
}

/// What a variable derives in the weak grammar, it derives.
pub proof fn lemma_eps_backward<T>(rules: Seq<Rule<T>>, nullable: Seq<bool>, t: Tree<T>)
    requires
        eps_ready(rules, nullable),
        t is Node,
        tree_ok(weak_productions(weak_rules_of(rules, nullable)), t),
    ensures
        derives(
            productions(rules),
            weak_productions(weak_rules_of(rules, nullable))[t->Node_0].head,
            fringe(t),
        ),
    decreases t,
{
    let g = productions(rules);
    let weak = weak_rules_of(rules, nullable);
    let wg = weak_productions(weak);
    let q = t->Node_0;
    let kids = t->Node_1;
    let x = weak[q];
    assert(wg[q] == weak_production(x));
    assert(weak.contains(x));
    lemma_weak_rules_of(rules, nullable, x);
    let r = choose|r: int| 0 <= r < rules.len() && weak_from(#[trigger] rules[r], nullable, x);
    let h = rules[r].head;
    let body = g[r].body;
    assert(g[r].head == h.0);
    assert(body == rules[r].body@);
    match x {
        WeakCnfRule::Terminal(_, a) => {
            let k = kids[0];
            assert(tree_matches(wg, k, wg[q].body[0]));
            assert(k == Tree::Leaf(a));
            assert(kids =~= seq![k]);
            assert(body =~= seq![Symbol::Term(a)]);
            lemma_node(g, r, seq![k]);
        },
        WeakCnfRule::Unit(_, u) => {
            let k = kids[0];
            assert(tree_matches(wg, k, wg[q].body[0]) && tree_ok(wg, k));
            assert(kids =~= seq![k]);
            lemma_forest_fringe_one(k);
            lemma_eps_backward(rules, nullable, k);
            let t1 = choose|t1: Tree<T>| derivation_of(g, t1, u.0 as int, fringe(k));
            if body.len() == 1 {
                assert(body =~= seq![Symbol::Var(u)]);
                lemma_forest_fringe_one(t1);
                lemma_node(g, r, seq![t1]);
            } else {
                let a = body[0]->Var_0;
                let b = body[1]->Var_0;
                assert(body[0] == Symbol::<T>::Var(a) && body[1] == Symbol::<T>::Var(b));
                if nullable[a.0 as int] && u == b {
                    let ta = choose|ta: Tree<T>| derivation_of(g, ta, a.0 as int, Seq::<T>::empty());
                    lemma_forest_fringe_two(ta, t1);
                    assert(fringe(ta) + fringe(t1) =~= fringe(t1));
                    lemma_node(g, r, seq![ta, t1]);
                } else {
                    let tb = choose|tb: Tree<T>| derivation_of(g, tb, b.0 as int, Seq::<T>::empty());
                    lemma_forest_fringe_two(t1, tb);
                    assert(fringe(t1) + fringe(tb) =~= fringe(t1));
                    lemma_node(g, r, seq![t1, tb]);
                }
            }
        },
        WeakCnfRule::Binary(_, a, b) => {
            let k1 = kids[0];
            let k2 = kids[1];
            assert(tree_matches(wg, k1, wg[q].body[0]) && tree_ok(wg, k1));
            assert(tree_matches(wg, k2, wg[q].body[1]) && tree_ok(wg, k2));
            assert(kids =~= seq![k1, k2]);
            lemma_forest_fringe_two(k1, k2);
            lemma_eps_backward(rules, nullable, k1);
            lemma_eps_backward(rules, nullable, k2);
            let t1 = choose|t1: Tree<T>| derivation_of(g, t1, a.0 as int, fringe(k1));
            let t2 = choose|t2: Tree<T>| derivation_of(g, t2, b.0 as int, fringe(k2));
            assert(body[0] == Symbol::<T>::Var(a) && body[1] == Symbol::<T>::Var(b));
            lemma_forest_fringe_two(t1, t2);
            lemma_node(g, r, seq![t1, t2]);
        },
    }
}

/// Taking the empty bodies out keeps the language but for the empty word:
/// a variable derives a word that is not empty in the weak grammar if and
/// only if it derives the word in the grammar; in the weak grammar no
/// variable derives the empty word.
pub proof fn lemma_epsilon_rules_keep_language<T>(
    rules: Seq<Rule<T>>,
    nullable: Seq<bool>,
    v: int,
    w: Seq<T>,
)
    requires
        eps_ready(rules, nullable),
    ensures
        derives(weak_productions(weak_rules_of(rules, nullable)), v, w) <==> w.len() > 0
            && derives(productions(rules), v, w),
{
    let g = productions(rules);
    let weak = weak_rules_of(rules, nullable);
    let wg = weak_productions(weak);
    if derives(wg, v, w) {
        let t = choose|t: Tree<T>| derivation_of(wg, t, v, w);
        lemma_eps_backward(rules, nullable, t);
        assert forall|r: int| 0 <= r < wg.len() implies (#[trigger] wg[r]).body.len() > 0 by {
            assert(wg[r] == weak_production(weak[r]));
        }
        lemma_fringe_nonempty(wg, t);
    }
    if w.len() > 0 && derives(g, v, w) {
        let t = choose|t: Tree<T>| derivation_of(g, t, v, w);
        lemma_eps_forward(rules, nullable, t);
    }
}

} // verus!
