//! Cutting long bodies down keeps the language of every variable.

use vstd::prelude::*;
use crate::cnf::eliminate_long_rules::{
    aux_rule, bin_aux, bin_front, chain, extra, lemma_extra_positive, shorten,
};
use crate::cnf::eliminate_epsilon_rules::short_bodies;
use crate::cnf::epsilon_language::lemma_node;
use crate::cnf::terminal_language::long_vars;
use crate::derivation::{
    derivation_of, derives, forest_fringe, fringe, height, lemma_forest_fringe_concat,
    lemma_forest_fringe_one, lemma_forest_fringe_pointwise, lemma_forest_fringe_two,
    lemma_forest_height, tree_matches, tree_ok, Tree,
};
use crate::grammar::{productions_in_range, Production, Symbol, Var};

verus! {

/// Whether `g2` is `g1`, a grammar over `n1` variables, with its long
/// bodies cut down.
pub open spec fn binarization_of<T>(
    g1: Seq<Production<T>>,
    n1: int,
    g2: Seq<Production<T>>,
) -> bool {
    &&& 0 <= n1
    &&& n1 + extra(g1) <= usize::MAX
    &&& productions_in_range(g1, n1)
    &&& g2 == bin_front(g1, n1) + bin_aux(g1, n1)
}

/// There is one auxiliary rule for each variable that is added.
pub proof fn lemma_bin_aux_len<T>(g: Seq<Production<T>>, n0: int)
    ensures
        bin_aux(g, n0).len() == extra(g),
        extra(g) >= 0,
    decreases g.len(),
{
    if g.len() > 0 {
        lemma_bin_aux_len(g.drop_last(), n0);
    }
}

/// The number of variables added for the first `i` productions does not
/// fall with `i`.
pub proof fn lemma_extra_take<T>(g: Seq<Production<T>>, i: int)
    requires
        0 <= i < g.len(),
    ensures
        0 <= extra(g.take(i)),
        extra(g.take(i + 1)) == extra(g.take(i)) + if g[i].body.len() > 2 {
            g[i].body.len() - 2
        } else {
            0
        },
        extra(g.take(i + 1)) <= extra(g),
    decreases g.len() - i,
{
    lemma_extra_positive(g.take(i));
    assert(g.take(i + 1).drop_last() == g.take(i));
    if i + 1 < g.len() {
        lemma_extra_take(g, i + 1);
    } else {
        assert(g.take(i + 1) == g);
    }
}

/// Where the auxiliary rules of production `i` stand.
pub proof fn lemma_bin_aux_index<T>(g: Seq<Production<T>>, n0: int, i: int, m: int)
    requires
        0 <= i < g.len(),
        0 <= m < g[i].body.len() - 2,
    ensures
        0 <= extra(g.take(i)) + m < extra(g),
        bin_aux(g, n0).len() == extra(g),
        bin_aux(g, n0)[extra(g.take(i)) + m] == aux_rule(g[i].body, n0 + extra(g.take(i)), m),
    decreases g.len(),
{
    let front = g.drop_last();
    lemma_bin_aux_len(g, n0);
    lemma_bin_aux_len(front, n0);
    lemma_extra_take(g, i);
    if i == g.len() - 1 {
        assert(g.take(i) == front);
        assert(chain(g.last().body, n0 + extra(front))[m] == aux_rule(
            g[i].body,
            n0 + extra(front),
            m,
        ));
    } else {
        lemma_bin_aux_index(front, n0, i, m);
        assert(front.take(i) == g.take(i));
        assert(front[i] == g[i]);
    }
}

/// Each auxiliary rule is one of those of some production.
pub proof fn lemma_bin_aux_locate<T>(g: Seq<Production<T>>, n0: int, q: int) -> (im: (int, int))
    requires
        0 <= q < extra(g),
    ensures
        0 <= im.0 < g.len(),
        0 <= im.1 < g[im.0].body.len() - 2,
        q == extra(g.take(im.0)) + im.1,
    decreases g.len(),
{
    let front = g.drop_last();
    lemma_extra_positive(front);
    if q >= extra(front) {
        assert(g.take(g.len() - 1) == front);
        (g.len() - 1, q - extra(front))
    } else {
        let (i, m) = lemma_bin_aux_locate(front, n0, q);
        assert(front.take(i) == g.take(i));
        assert(front[i] == g[i]);
        (i, m)
    }
}

/// The head of a rule of the new grammar tells where it stands: the rules
/// of the old grammar keep their heads, and the auxiliary variables come
/// behind the old ones in the order of their rules.
pub proof fn lemma_bin_heads<T>(g1: Seq<Production<T>>, n1: int, g2: Seq<Production<T>>, q: int)
    requires
        binarization_of(g1, n1, g2),
        0 <= q < g2.len(),
    ensures
        g2.len() == g1.len() + extra(g1),
        q < g1.len() ==> g2[q].head == g1[q].head && 0 <= g2[q].head < n1,
        q >= g1.len() ==> g2[q].head == n1 + (q - g1.len()),
{
    lemma_bin_aux_len(g1, n1);
    if q >= g1.len() {
        let (i, m) = lemma_bin_aux_locate(g1, n1, q - g1.len());
        lemma_bin_aux_index(g1, n1, i, m);
    }
}

/// The new grammar is well formed over the old variables and the
/// auxiliary ones, and its bodies are short if the long bodies of the old
/// grammar hold variables only.
pub proof fn lemma_binarization_wf<T>(g1: Seq<Production<T>>, n1: int, g2: Seq<Production<T>>)
    requires
        binarization_of(g1, n1, g2),
        long_vars(g1),
    ensures
        productions_in_range(g2, n1 + extra(g1)),
        short_bodies(g2),
{
    lemma_bin_aux_len(g1, n1);
    let n2 = n1 + extra(g1);
    assert forall|q: int| 0 <= q < g2.len() implies {
        &&& 0 <= (#[trigger] g2[q]).head < n2
        &&& forall|j: int|
            0 <= j < g2[q].body.len() ==> (#[trigger] g2[q].body[j] matches Symbol::Var(v) ==> v.0
                < n2)
        &&& g2[q].body.len() <= 2
        &&& g2[q].body.len() == 2 ==> g2[q].body[0] is Var && g2[q].body[1] is Var
    } by {
        lemma_bin_heads(g1, n1, g2, q);
        if q < g1.len() {
            lemma_extra_take(g1, q);
            let body = g1[q].body;
            assert(g2[q] == shorten(g1[q], n1 + extra(g1.take(q))));
            if body.len() > 2 {
                assert(body[0] is Var);
                assert(body[0] matches Symbol::Var(v) ==> v.0 < n1);
            } else {
                assert forall|j: int| 0 <= j < body.len() implies (
                #[trigger] g2[q].body[j] matches Symbol::Var(v) ==> v.0 < n2) by {
                    assert(body[j] matches Symbol::Var(v) ==> v.0 < n1);
                }
                if body.len() == 2 {
                    assert(body[0] is Var && body[1] is Var);
                }
            }
        } else {
            let (i, m) = lemma_bin_aux_locate(g1, n1, q - g1.len());
            lemma_bin_aux_index(g1, n1, i, m);
            lemma_extra_take(g1, i);
            let body = g1[i].body;
            let len = body.len() as int;
            assert(g2[q] == aux_rule(body, n1 + extra(g1.take(i)), m));
            assert(body[len - 2 - m] is Var);
            assert(body[len - 1] is Var);
            assert(body[len - 2 - m] matches Symbol::Var(v) ==> v.0 < n1);
            assert(body[len - 1] matches Symbol::Var(v) ==> v.0 < n1);
        }
    }
}

/// Grammars whose bodies have the same lengths, body by body, get the same
/// number of auxiliary variables.
pub proof fn lemma_extra_by_lengths<T>(a: Seq<Production<T>>, b: Seq<Production<T>>)
    requires
        a.len() == b.len(),
        forall|i: int| 0 <= i < a.len() ==> (#[trigger] a[i]).body.len() == b[i].body.len(),
    ensures
        extra(a) == extra(b),
    decreases a.len(),
{
    if a.len() > 0 {
        assert forall|i: int| 0 <= i < a.drop_last().len() implies (
        #[trigger] a.drop_last()[i]).body.len() == b.drop_last()[i].body.len() by {
            assert(a[i].body.len() == b[i].body.len());
        }
        lemma_extra_by_lengths(a.drop_last(), b.drop_last());
        assert(a[a.len() - 1].body.len() == b[a.len() - 1].body.len());
    }
}

/// Productions with short bodies behind a grammar ask for no auxiliary
/// variable.
pub proof fn lemma_extra_short_tail<T>(g: Seq<Production<T>>, k: int)
    requires
        0 <= k <= g.len(),
        forall|i: int| k <= i < g.len() ==> (#[trigger] g[i]).body.len() <= 2,
    ensures
        extra(g) == extra(g.take(k)),
    decreases g.len() - k,
{
    if k < g.len() {
        assert(g.drop_last().take(k) == g.take(k));
        lemma_extra_short_tail(g.drop_last(), k);
        assert(g[g.len() - 1].body.len() <= 2);
    } else {
        assert(g.take(k) == g);
    }
}

/// The child of a node, carried over to the new grammar.
pub open spec fn bin_lifted<T>(g1: Seq<Production<T>>, g2: Seq<Production<T>>, k: Tree<T>) -> Tree<T> {
    match k {
        Tree::Leaf(_) => k,
        Tree::Node(r, _) => choose|t: Tree<T>| derivation_of(g2, t, g1[r].head, fringe(k)),
    }
}

/// The tree of the auxiliary variable with index `m` over the last
/// `m + 2` trees of `kids`; `rb` is the index of the first auxiliary rule.
pub open spec fn chain_tree<T>(kids: Seq<Tree<T>>, rb: int, m: int) -> Tree<T>
    decreases m,
{
    if m <= 0 {
        Tree::Node(rb, seq![kids[kids.len() - 2], kids[kids.len() - 1]])
    } else {
        Tree::Node(rb + m, seq![kids[kids.len() - 2 - m], chain_tree(kids, rb, m - 1)])
    }
}

/// Whether the trees `kids` stand for the symbols of `body` in `g`.
pub open spec fn kids_match<T>(g: Seq<Production<T>>, kids: Seq<Tree<T>>, body: Seq<Symbol<T>>) -> bool {
    &&& kids.len() == body.len()
    &&& forall|j: int|
        0 <= j < kids.len() ==> tree_matches(g, #[trigger] kids[j], body[j]) && tree_ok(g, kids[j])
}

/// The tree of an auxiliary variable is a derivation of the leaves of the
/// trees that it stands over.
pub proof fn lemma_chain_tree<T>(
    g1: Seq<Production<T>>,
    n1: int,
    g2: Seq<Production<T>>,
    r: int,
    kids: Seq<Tree<T>>,
    m: int,
)
    requires
        binarization_of(g1, n1, g2),
        0 <= r < g1.len(),
        kids_match(g2, kids, g1[r].body),
        0 <= m <= g1[r].body.len() - 3,
    ensures
        tree_ok(g2, chain_tree(kids, g1.len() + extra(g1.take(r)), m)),
        chain_tree(kids, g1.len() + extra(g1.take(r)), m) is Node,
        chain_tree(kids, g1.len() + extra(g1.take(r)), m)->Node_0 == g1.len() + extra(g1.take(r))
            + m,
        fringe(chain_tree(kids, g1.len() + extra(g1.take(r)), m)) == forest_fringe(
            kids.subrange(kids.len() - 2 - m, kids.len() as int),
        ),
    decreases m,
{
    let body = g1[r].body;
    let len = body.len() as int;
    let off = extra(g1.take(r));
    let rb = g1.len() + off;
    let base = n1 + off;
    lemma_bin_aux_index(g1, n1, r, m);
    lemma_bin_aux_len(g1, n1);
    assert(g2[rb + m] == bin_aux(g1, n1)[off + m]);
    assert(g2[rb + m] == aux_rule(body, base, m));
    let c = chain_tree(kids, rb, m);
    let x = kids[len - 2 - m];
    assert(tree_matches(g2, x, body[len - 2 - m]) && tree_ok(g2, x));
    if m == 0 {
        let y = kids[len - 1];
        assert(tree_matches(g2, y, body[len - 1]) && tree_ok(g2, y));
        let kk = seq![x, y];
        assert(g2[rb].body =~= seq![body[len - 2], body[len - 1]]);
        assert forall|j: int| 0 <= j < kk.len() implies tree_matches(
            g2,
            #[trigger] kk[j],
            g2[rb].body[j],
        ) && tree_ok(g2, kk[j]) by {}
        assert(kids.subrange(len - 2, len) =~= kk);
    } else {
        lemma_chain_tree(g1, n1, g2, r, kids, m - 1);
        let c1 = chain_tree(kids, rb, m - 1);
        let kk = seq![x, c1];
        lemma_bin_heads(g1, n1, g2, rb + m - 1);
        lemma_extra_take(g1, r);
        assert(g2[rb + m].body =~= seq![
            body[len - 2 - m],
            Symbol::Var(Var((base + m - 1) as usize)),
        ]);
        assert(tree_matches(g2, c1, g2[rb + m].body[1]));
        assert forall|j: int| 0 <= j < kk.len() implies tree_matches(
            g2,
            #[trigger] kk[j],
            g2[rb + m].body[j],
        ) && tree_ok(g2, kk[j]) by {}
        lemma_forest_fringe_two(x, c1);
        let rest = kids.subrange(len - 1 - m, len);
        assert(kids.subrange(len - 2 - m, len) =~= seq![x] + rest);
        lemma_forest_fringe_concat(seq![x], rest);
        lemma_forest_fringe_one(x);
    }
}

/// What a variable derives, it derives in the new grammar.
pub proof fn lemma_bin_forward<T>(
    g1: Seq<Production<T>>,
    n1: int,
    g2: Seq<Production<T>>,
    t: Tree<T>,
)
    requires
        binarization_of(g1, n1, g2),
        t is Node,
        tree_ok(g1, t),
    ensures
        derives(g2, g1[t->Node_0].head, fringe(t)),
    decreases t,
{
    let r = t->Node_0;
    let kids = t->Node_1;
    let body = g1[r].body;
    let len = body.len() as int;
    let off = extra(g1.take(r));
    lemma_bin_aux_len(g1, n1);
    lemma_bin_heads(g1, n1, g2, r);
    let kids2 = Seq::new(kids.len(), |j: int| bin_lifted(g1, g2, kids[j]));
    assert forall|j: int| 0 <= j < kids.len() implies tree_matches(
        g2,
        #[trigger] kids2[j],
        body[j],
    ) && tree_ok(g2, kids2[j]) && fringe(kids2[j]) == fringe(kids[j]) by {
        let k = kids[j];
        assert(tree_matches(g1, k, body[j]) && tree_ok(g1, k));
        match k {
            Tree::Leaf(_) => {},
            Tree::Node(r2, _) => {
                lemma_bin_forward(g1, n1, g2, k);
                let t2 = choose|t2: Tree<T>| derivation_of(g2, t2, g1[r2].head, fringe(k));
                assert(kids2[j] == t2);
            },
        }
    }
    lemma_forest_fringe_pointwise(kids2, kids);
    assert(g2[r] == shorten(g1[r], n1 + off));
    if len <= 2 {
        lemma_node(g2, r, kids2);
    } else {
        assert(kids_match(g2, kids2, body));
        lemma_chain_tree(g1, n1, g2, r, kids2, len - 3);
        let rb = g1.len() + off;
        let c = chain_tree(kids2, rb, len - 3);
        let x = kids2[0];
        assert(tree_matches(g2, x, body[0]) && tree_ok(g2, x));
        let top = seq![x, c];
        lemma_bin_heads(g1, n1, g2, rb + len - 3);
        lemma_extra_take(g1, r);
        assert(g2[r].body =~= seq![body[0], Symbol::Var(Var((n1 + off + len - 3) as usize))]);
        assert(tree_matches(g2, c, g2[r].body[1]));
        assert forall|j: int| 0 <= j < top.len() implies tree_matches(
            g2,
            #[trigger] top[j],
            g2[r].body[j],
        ) && tree_ok(g2, top[j]) by {}
        lemma_forest_fringe_two(x, c);
        let rest = kids2.subrange(1, len);
        assert(kids2 =~= seq![x] + rest);
        lemma_forest_fringe_concat(seq![x], rest);
        lemma_forest_fringe_one(x);
        lemma_node(g2, r, top);
    }
}

/// The trees over which the tree `c` of the auxiliary variable with index
/// `m` stands.
pub open spec fn unchain<T>(c: Tree<T>, m: int) -> Seq<Tree<T>>
    decreases m,
{
    match c {
        Tree::Leaf(_) => Seq::empty(),
        Tree::Node(_, kk) => if m <= 0 || kk.len() < 2 {
            kk
        } else {
            seq![kk[0]] + unchain(kk[1], m - 1)
        },
    }
}

/// The trees over which the tree of an auxiliary variable stands are
/// derivations of the last symbols of the long body, lower than that tree,
/// with the same leaves.
pub proof fn lemma_unchain<T>(
    g1: Seq<Production<T>>,
    n1: int,
    g2: Seq<Production<T>>,
    r: int,
    c: Tree<T>,
    m: int,
)
    requires
        binarization_of(g1, n1, g2),
        0 <= r < g1.len(),
        0 <= m <= g1[r].body.len() - 3,
        c is Node,
        c->Node_0 == g1.len() + extra(g1.take(r)) + m,
        tree_ok(g2, c),
    ensures
        unchain(c, m).len() == m + 2,
        forall|j: int|
            0 <= j < m + 2 ==> tree_matches(
                g2,
                #[trigger] unchain(c, m)[j],
                g1[r].body[g1[r].body.len() - 2 - m + j],
            ) && tree_ok(g2, unchain(c, m)[j]) && height(unchain(c, m)[j]) < height(c),
        forest_fringe(unchain(c, m)) == fringe(c),
    decreases m,
{
    let body = g1[r].body;
    let len = body.len() as int;
    let off = extra(g1.take(r));
    let rb = g1.len() + off;
    let base = n1 + off;
    let kk = c->Node_1;
    lemma_bin_aux_index(g1, n1, r, m);
    lemma_bin_aux_len(g1, n1);
    lemma_extra_take(g1, r);
    assert(g2[rb + m] == bin_aux(g1, n1)[off + m]);
    assert(g2[rb + m] == aux_rule(body, base, m));
    assert(kk.len() == 2);
    assert(tree_matches(g2, kk[0], g2[rb + m].body[0]) && tree_ok(g2, kk[0]));
    assert(tree_matches(g2, kk[1], g2[rb + m].body[1]) && tree_ok(g2, kk[1]));
    lemma_forest_height(kk, 0);
    lemma_forest_height(kk, 1);
    assert(kk =~= seq![kk[0], kk[1]]);
    lemma_forest_fringe_two(kk[0], kk[1]);
    if m == 0 {
    } else {
        let c1 = kk[1];
        let q = c1->Node_0;
        lemma_bin_heads(g1, n1, g2, q);
        assert(g2[q].head == base + m - 1);
        assert(q == rb + m - 1);
        lemma_unchain(g1, n1, g2, r, c1, m - 1);
        let u1 = unchain(c1, m - 1);
        let u = unchain(c, m);
        assert(u == seq![kk[0]] + u1);
        assert forall|j: int| 0 <= j < m + 2 implies tree_matches(
            g2,
            #[trigger] u[j],
            body[len - 2 - m + j],
        ) && tree_ok(g2, u[j]) && height(u[j]) < height(c) by {
            if j > 0 {
                assert(u[j] == u1[j - 1]);
            }
        }
        lemma_forest_fringe_concat(seq![kk[0]], u1);
        lemma_forest_fringe_one(kk[0]);
    }
}

/// The child of a node, carried back to the old grammar.
pub open spec fn bin_lowered<T>(g1: Seq<Production<T>>, g2: Seq<Production<T>>, k: Tree<T>) -> Tree<T> {
    match k {
        Tree::Leaf(_) => k,
        Tree::Node(r, _) => choose|t: Tree<T>| derivation_of(g1, t, g2[r].head, fringe(k)),
    }
}

/// What a variable of the old grammar derives in the new one, it derives
/// in the old one.
pub proof fn lemma_bin_backward<T>(
    g1: Seq<Production<T>>,
    n1: int,
    g2: Seq<Production<T>>,
    t: Tree<T>,
)
    requires
        binarization_of(g1, n1, g2),
        t is Node,
        tree_ok(g2, t),
        t->Node_0 < g1.len(),
    ensures
        derives(g1, g2[t->Node_0].head, fringe(t)),
    decreases height(t),
{
    let r = t->Node_0;
    let kids = t->Node_1;
    let body = g1[r].body;
    let len = body.len() as int;
    let off = extra(g1.take(r));
    let rb = g1.len() + off;
    lemma_bin_aux_len(g1, n1);
    lemma_bin_heads(g1, n1, g2, r);
    lemma_extra_take(g1, r);
    assert(g2[r] == shorten(g1[r], n1 + off));
    let full = if len <= 2 {
        kids
    } else {
        seq![kids[0]] + unchain(kids[1], len - 3)
    };
    if len > 2 {
        let c = kids[1];
        assert(g2[r].body =~= seq![body[0], Symbol::Var(Var((n1 + off + len - 3) as usize))]);
        assert(tree_matches(g2, kids[0], g2[r].body[0]) && tree_ok(g2, kids[0]));
        assert(tree_matches(g2, c, g2[r].body[1]) && tree_ok(g2, c));
        let q = c->Node_0;
        lemma_bin_heads(g1, n1, g2, q);
        assert(q == rb + len - 3);
        lemma_unchain(g1, n1, g2, r, c, len - 3);
        lemma_forest_height(kids, 0);
        lemma_forest_height(kids, 1);
        assert(kids =~= seq![kids[0], c]);
        lemma_forest_fringe_two(kids[0], c);
        lemma_forest_fringe_concat(seq![kids[0]], unchain(c, len - 3));
        lemma_forest_fringe_one(kids[0]);
        assert forall|j: int| 0 <= j < len implies tree_matches(g2, #[trigger] full[j], body[j])
            && tree_ok(g2, full[j]) && height(full[j]) < height(t) by {
            if j > 0 {
                assert(full[j] == unchain(c, len - 3)[j - 1]);
            }
        }
    } else {
        assert forall|j: int| 0 <= j < len implies tree_matches(g2, #[trigger] full[j], body[j])
            && tree_ok(g2, full[j]) && height(full[j]) < height(t) by {
            lemma_forest_height(kids, j);
        }
    }
    assert(forest_fringe(full) == fringe(t));
    let kids1 = Seq::new(full.len(), |j: int| bin_lowered(g1, g2, full[j]));
    assert forall|j: int| 0 <= j < full.len() implies tree_matches(
        g1,
        #[trigger] kids1[j],
        body[j],
    ) && tree_ok(g1, kids1[j]) && fringe(kids1[j]) == fringe(full[j]) by {
        let k = full[j];
        assert(tree_matches(g2, k, body[j]) && tree_ok(g2, k) && height(k) < height(t));
        match k {
            Tree::Leaf(_) => {},
            Tree::Node(r2, _) => {
                lemma_bin_heads(g1, n1, g2, r2);
                assert(r2 < g1.len());
                lemma_bin_backward(g1, n1, g2, k);
                let t1 = choose|t1: Tree<T>| derivation_of(g1, t1, g2[r2].head, fringe(k));
                assert(kids1[j] == t1);
            },
        }
    }
    lemma_forest_fringe_pointwise(kids1, full);
    lemma_node(g1, r, kids1);
}

/// Cutting long bodies down keeps the language of every variable of the
/// old grammar.
pub proof fn lemma_binarization_keeps_language<T>(
    g1: Seq<Production<T>>,
    n1: int,
    g2: Seq<Production<T>>,
    v: int,
    w: Seq<T>,
)
    requires
        binarization_of(g1, n1, g2),
        0 <= v < n1,
    ensures
        derives(g2, v, w) <==> derives(g1, v, w),
{
    if derives(g1, v, w) {
        let t = choose|t: Tree<T>| derivation_of(g1, t, v, w);
        lemma_bin_forward(g1, n1, g2, t);
    }
    if derives(g2, v, w) {
        let t = choose|t: Tree<T>| derivation_of(g2, t, v, w);
        lemma_bin_heads(g1, n1, g2, t->Node_0);
        lemma_bin_backward(g1, n1, g2, t);
    }
}

} // verus!
