//! The grammar of balanced brackets, `S -> ( ) | ( S ) | S S`, and its
//! language.

use vstd::prelude::*;
use crate::cnf::epsilon_language::lemma_node;
use crate::derivation::{
    derivation_of, derives, forest_fringe, fringe, lemma_forest_fringe_concat,
    lemma_forest_fringe_one, lemma_forest_fringe_two, tree_matches, tree_ok, Tree,
};
use crate::grammar::{Cfg, Production, Rule, Symbol, Var};
use crate::parsing::cyk::CykParser;
use crate::parsing::earley::EarleyParser;
use crate::parsing::Parser;

verus! {

/// The three productions of the grammar.
pub open spec fn bracket_productions() -> Seq<Production<char>> {
    seq![
        Production { head: 0, body: seq![Symbol::Term('('), Symbol::Term(')')] },
        Production {
            head: 0,
            body: seq![Symbol::Term('('), Symbol::Var(Var(0)), Symbol::Term(')')],
        },
        Production { head: 0, body: seq![Symbol::Var(Var(0)), Symbol::Var(Var(0))] },
    ]
}

/// The number of brackets that are open after the first `k` characters of
/// `w`: an opening bracket counts one up, every other character one down.
pub open spec fn depth(w: Seq<char>, k: int) -> int
    decreases k,
{
    if k <= 0 {
        0
    } else {
        depth(w, k - 1) + if w[k - 1] == '(' {
            1int
        } else {
            -1int
        }
    }
}

/// Whether `w` is a word of brackets in which no bracket is closed that
/// was not opened, and every bracket that was opened is closed.
pub open spec fn balanced(w: Seq<char>) -> bool {
    &&& forall|k: int| 0 <= k <= w.len() ==> #[trigger] depth(w, k) >= 0
    &&& depth(w, w.len() as int) == 0
    &&& forall|i: int| 0 <= i < w.len() ==> (#[trigger] w[i]) == '(' || w[i] == ')'
}

/// The depth within a part of a word is the depth within the word, less
/// the depth at which the part begins.
pub proof fn lemma_depth_part(w: Seq<char>, i: int, e: int, j: int)
    requires
        0 <= i <= e <= w.len(),
        0 <= j <= e - i,
    ensures
        depth(w.subrange(i, e), j) == depth(w, i + j) - depth(w, i),
    decreases j,
{
    if j > 0 {
        lemma_depth_part(w, i, e, j - 1);
        assert(w.subrange(i, e)[j - 1] == w[i + j - 1]);
    }
}

/// Two balanced words, one after the other, are a balanced word.
pub proof fn lemma_balanced_concat(a: Seq<char>, b: Seq<char>)
    requires
        balanced(a),
        balanced(b),
    ensures
        balanced(a + b),
{
    let w = a + b;
    let n = a.len() as int;
    assert(w.subrange(0, n) =~= a);
    assert(w.subrange(n, w.len() as int) =~= b);
    assert forall|k: int| 0 <= k <= w.len() implies #[trigger] depth(w, k) >= 0 && (k == n
        ==> depth(w, k) == 0) && (k == w.len() ==> depth(w, k) == 0) by {
        lemma_depth_part(w, 0, n, n);
        if k <= n {
            lemma_depth_part(w, 0, n, k);
            assert(depth(a, k) >= 0);
        } else {
            lemma_depth_part(w, n, w.len() as int, k - n);
            assert(depth(b, k - n) >= 0);
        }
    }
    assert(depth(w, w.len() as int) == 0);
    assert forall|i: int| 0 <= i < w.len() implies (#[trigger] w[i]) == '(' || w[i] == ')' by {
        if i < n {
            assert(w[i] == a[i]);
        } else {
            assert(w[i] == b[i - n]);
        }
    }
}

/// A balanced word in brackets, and the two brackets alone, are balanced
/// words.
pub proof fn lemma_balanced_wrap(u: Seq<char>)
    requires
        u.len() == 0 || balanced(u),
    ensures
        balanced(seq!['('] + u + seq![')']),
{
    let w = seq!['('] + u + seq![')'];
    let n = w.len() as int;
    assert(w.subrange(1, n - 1) =~= u);
    assert(depth(w, 1) == depth(w, 0) + 1);
    assert forall|k: int| 0 <= k <= n implies #[trigger] depth(w, k) >= 0 && (k == n ==> depth(
        w,
        k,
    ) == 0) by {
        if 1 <= k <= n - 1 {
            lemma_depth_part(w, 1, n - 1, k - 1);
            if u.len() > 0 {
                assert(depth(u, k - 1) >= 0);
            }
        }
        if k == n {
            lemma_depth_part(w, 1, n - 1, n - 2);
            assert(depth(w, n) == depth(w, n - 1) - 1);
        }
    }
    assert(depth(w, n) == 0);
    assert forall|i: int| 0 <= i < n implies (#[trigger] w[i]) == '(' || w[i] == ')' by {
        if 1 <= i < n - 1 {
            assert(w[i] == u[i - 1]);
        }
    }
}

/// What the grammar derives is a balanced word, and not the empty one.
pub proof fn lemma_derived_is_balanced(t: Tree<char>)
    requires
        t is Node,
        tree_ok(bracket_productions(), t),
    ensures
        balanced(fringe(t)),
        fringe(t).len() >= 1,
    decreases t,
{
    let g = bracket_productions();
    let r = t->Node_0;
    let kids = t->Node_1;
    if r == 0 {
        assert(tree_matches(g, kids[0], g[0].body[0]));
        assert(tree_matches(g, kids[1], g[0].body[1]));
        assert(kids =~= seq![kids[0], kids[1]]);
        lemma_forest_fringe_two(kids[0], kids[1]);
        lemma_balanced_wrap(Seq::<char>::empty());
        assert(fringe(t) =~= seq!['('] + Seq::<char>::empty() + seq![')']);
    } else if r == 1 {
        assert(tree_matches(g, kids[0], g[1].body[0]));
        assert(tree_matches(g, kids[1], g[1].body[1]) && tree_ok(g, kids[1]));
        assert(tree_matches(g, kids[2], g[1].body[2]));
        lemma_derived_is_balanced(kids[1]);
        assert(kids =~= seq![kids[0], kids[1]] + seq![kids[2]]);
        lemma_forest_fringe_concat(seq![kids[0], kids[1]], seq![kids[2]]);
        lemma_forest_fringe_two(kids[0], kids[1]);
        lemma_forest_fringe_one(kids[2]);
        lemma_balanced_wrap(fringe(kids[1]));
        assert(fringe(t) =~= seq!['('] + fringe(kids[1]) + seq![')']);
    } else {
        assert(tree_matches(g, kids[0], g[2].body[0]) && tree_ok(g, kids[0]));
        assert(tree_matches(g, kids[1], g[2].body[1]) && tree_ok(g, kids[1]));
        lemma_derived_is_balanced(kids[0]);
        lemma_derived_is_balanced(kids[1]);
        assert(kids =~= seq![kids[0], kids[1]]);
        lemma_forest_fringe_two(kids[0], kids[1]);
        lemma_balanced_concat(fringe(kids[0]), fringe(kids[1]));
    }
}

/// The first place from `j` on at which no bracket of `w` is open.
pub proof fn lemma_first_return(w: Seq<char>, j: int) -> (k: int)
    requires
        1 <= j <= w.len(),
        depth(w, w.len() as int) == 0,
        forall|i: int| 1 <= i < j ==> #[trigger] depth(w, i) != 0,
    ensures
        j <= k <= w.len(),
        depth(w, k) == 0,
        forall|i: int| 1 <= i < k ==> #[trigger] depth(w, i) != 0,
    decreases w.len() - j,
{
    if depth(w, j) == 0 {
        j
    } else {
        lemma_first_return(w, j + 1)
    }
}

/// The grammar derives every balanced word but the empty one.
pub proof fn lemma_balanced_is_derived(w: Seq<char>)
    requires
        balanced(w),
        w.len() >= 1,
    ensures
        derives(bracket_productions(), 0, w),
    decreases w.len(),
{
    let g = bracket_productions();
    let n = w.len() as int;
    assert(depth(w, 1) == depth(w, 0) + if w[0] == '(' {
        1int
    } else {
        -1int
    });
    assert(depth(w, 1) >= 0);
    assert(w[0] == '(');
    let k = lemma_first_return(w, 1);
    assert(k >= 2);
    assert(depth(w, k) == depth(w, k - 1) + if w[k - 1] == '(' {
        1int
    } else {
        -1int
    });
    assert(depth(w, k - 1) >= 0 && depth(w, k - 1) != 0);
    assert(w[k - 1] == ')');
    if k == n {
        let u = w.subrange(1, n - 1);
        assert(w =~= seq!['('] + u + seq![')']);
        let open = Tree::Leaf('(');
        let close = Tree::Leaf(')');
        if u.len() == 0 {
            let kids = seq![open, close];
            assert forall|j: int| 0 <= j < kids.len() implies tree_matches(
                g,
                #[trigger] kids[j],
                g[0].body[j],
            ) && tree_ok(g, kids[j]) by {}
            lemma_forest_fringe_two(open, close);
            lemma_node(g, 0, kids);
            assert(forest_fringe(kids) =~= w);
        } else {
            assert forall|j: int| 0 <= j <= u.len() implies #[trigger] depth(u, j) >= 0 by {
                lemma_depth_part(w, 1, n - 1, j);
                if j + 1 < n {
                    assert(depth(w, j + 1) >= 0 && depth(w, j + 1) != 0);
                }
            }
            lemma_depth_part(w, 1, n - 1, n - 2);
            assert forall|i: int| 0 <= i < u.len() implies (#[trigger] u[i]) == '(' || u[i]
                == ')' by {
                assert(u[i] == w[i + 1]);
            }
            assert(balanced(u));
            lemma_balanced_is_derived(u);
            let inner = choose|inner: Tree<char>| derivation_of(g, inner, 0, u);
            let kids = seq![open, inner, close];
            assert forall|j: int| 0 <= j < kids.len() implies tree_matches(
                g,
                #[trigger] kids[j],
                g[1].body[j],
            ) && tree_ok(g, kids[j]) by {}
            assert(kids =~= seq![open, inner] + seq![close]);
            lemma_forest_fringe_concat(seq![open, inner], seq![close]);
            lemma_forest_fringe_two(open, inner);
            lemma_forest_fringe_one(close);
            lemma_node(g, 1, kids);
            assert(forest_fringe(kids) =~= w);
        }
    } else {
        let a = w.subrange(0, k);
        let b = w.subrange(k, n);
        assert(w =~= a + b);
        assert forall|j: int| 0 <= j <= a.len() implies #[trigger] depth(a, j) >= 0 by {
            lemma_depth_part(w, 0, k, j);
            assert(depth(w, j) >= 0);
        }
        lemma_depth_part(w, 0, k, k);
        assert forall|j: int| 0 <= j <= b.len() implies #[trigger] depth(b, j) >= 0 by {
            lemma_depth_part(w, k, n, j);
            assert(depth(w, k + j) >= 0);
        }
        lemma_depth_part(w, k, n, n - k);
        assert forall|i: int| 0 <= i < a.len() implies (#[trigger] a[i]) == '(' || a[i] == ')' by {
            assert(a[i] == w[i]);
        }
        assert forall|i: int| 0 <= i < b.len() implies (#[trigger] b[i]) == '(' || b[i] == ')' by {
            assert(b[i] == w[k + i]);
        }
        assert(balanced(a));
        assert(balanced(b));
        lemma_balanced_is_derived(a);
        lemma_balanced_is_derived(b);
        let ta = choose|ta: Tree<char>| derivation_of(g, ta, 0, a);
        let tb = choose|tb: Tree<char>| derivation_of(g, tb, 0, b);
        let kids = seq![ta, tb];
        assert forall|j: int| 0 <= j < kids.len() implies tree_matches(
            g,
            #[trigger] kids[j],
            g[2].body[j],
        ) && tree_ok(g, kids[j]) by {}
        lemma_forest_fringe_two(ta, tb);
        lemma_node(g, 2, kids);
    }
}

/// The language of the grammar: the balanced words but the empty one.
pub proof fn lemma_bracket_language(w: Seq<char>)
    ensures
        derives(bracket_productions(), 0, w) <==> w.len() >= 1 && balanced(w),
{
    let g = bracket_productions();
    if derives(g, 0, w) {
        let t = choose|t: Tree<char>| derivation_of(g, t, 0, w);
        lemma_derived_is_balanced(t);
    }
    if w.len() >= 1 && balanced(w) {
        lemma_balanced_is_derived(w);
    }
}

/// The normal form of the grammar has four variables: the passes add one
/// for each of the two brackets and one for the body of three symbols.
pub proof fn lemma_bracket_sizes()
    ensures
        crate::cnf::eliminate_nonsolitary_terminals::scan_rules(bracket_productions()) == seq!['(', ')'],
        crate::cnf::eliminate_long_rules::extra(bracket_productions()) == 1,
{
    let g = bracket_productions();
    let g2 = g.drop_last();
    let g1 = g2.drop_last();
    let g0 = g1.drop_last();
    assert(g0.len() == 0);
    assert(g1.last() == g[0]);
    assert(g2.last() == g[1]);
    assert(g.last() == g[2]);
    let b0 = g[0].body;
    let b1 = g[1].body;
    let b2 = g[2].body;
    reveal_with_fuel(crate::cnf::eliminate_nonsolitary_terminals::scan_rules, 5);
    reveal_with_fuel(crate::cnf::eliminate_nonsolitary_terminals::scan_body, 5);
    reveal_with_fuel(crate::cnf::eliminate_long_rules::extra, 5);
    let e = Seq::<char>::empty();
    // the first body
    assert(b0.drop_last() =~= seq![Symbol::Term('(')]);
    assert(b0.drop_last().drop_last() =~= Seq::<Symbol<char>>::empty());
    let m0 = crate::cnf::eliminate_nonsolitary_terminals::scan_body(b0, e);
    assert(e.push('(') =~= seq!['(']);
    assert(!e.contains('('));
    assert(!seq!['('].contains(')')) by {
        if seq!['('].contains(')') {
            let k = choose|k: int| 0 <= k < seq!['('].len() && seq!['('][k] == ')';
        }
    }
    assert(seq!['('].push(')') =~= seq!['(', ')']);
    assert(m0 == seq!['(', ')']);
    // the second body
    let both = seq!['(', ')'];
    assert(both.contains('(')) by {
        assert(both[0] == '(');
    }
    assert(both.contains(')')) by {
        assert(both[1] == ')');
    }
    assert(b1.drop_last() =~= seq![Symbol::Term('('), Symbol::Var(Var(0))]);
    assert(b1.drop_last().drop_last() =~= seq![Symbol::Term('(')]);
    assert(b1.drop_last().drop_last().drop_last() =~= Seq::<Symbol<char>>::empty());
    let m1 = crate::cnf::eliminate_nonsolitary_terminals::scan_body(b1, both);
    assert(m1 == both);
    // the third body
    assert(b2.drop_last() =~= seq![Symbol::Var(Var(0))]);
    assert(b2.drop_last().drop_last() =~= Seq::<Symbol<char>>::empty());
    let m2 = crate::cnf::eliminate_nonsolitary_terminals::scan_body(b2, both);
    assert(m2 == both);
}

/// An Earley parser and a CYK parser for the grammar have the balanced
/// words but the empty one as their language.
pub proof fn lemma_bracket_parsers(
    earley: EarleyParser<char>,
    cyk: CykParser<char>,
    word: Vec<char>,
)
    requires
        earley.productions() == bracket_productions(),
        earley.start_var == Var(0),
        forall|w: Seq<char>| #[trigger] cyk.accepts(w) <==> derives(bracket_productions(), 0, w),
    ensures
        earley.in_language(word) == (word@.len() >= 1 && balanced(word@)),
        cyk.in_language(word) == (word@.len() >= 1 && balanced(word@)),
{
    lemma_bracket_language(word@);
}

/// Whether `word` is balanced, by counting the open brackets from left to
/// right.
pub fn is_balanced(word: &Vec<char>) -> (yes: bool)
    ensures
        yes == balanced(word@),
{
    let ghost w = word@;
    let mut open: usize = 0;
    let mut i: usize = 0;
    while i < word.len()
        invariant
            i <= w.len(),
            w == word@,
            open == depth(w, i as int),
            open <= i,
            forall|k: int| 0 <= k <= i ==> #[trigger] depth(w, k) >= 0,
            forall|k: int| 0 <= k < i ==> (#[trigger] w[k]) == '(' || w[k] == ')',
        decreases w.len() - i,
    {
        let c = word[i];
        if c == '(' {
            open += 1;
        } else if c == ')' && open > 0 {
            open -= 1;
        } else {
            proof {
                if c == ')' {
                    assert(depth(w, i + 1) < 0);
                } else {
                    assert(!(w[i as int] == '(' || w[i as int] == ')'));
                }
            }
            return false;
        }
        i += 1;
    }
    open == 0
}

/// The grammar of balanced brackets.
pub fn bracket_grammar() -> (cfg: Cfg<char>)
    ensures
        cfg.wf(),
        cfg.start_var == Var(0),
        cfg.var_names@.len() == 1,
        cfg.productions() == bracket_productions(),
{
    let mut builder = Cfg::builder();
    let start = builder.add_var("start".to_string());
    let mut pair: Vec<Symbol<char>> = Vec::new();
    pair.push(Symbol::Term('('));
    pair.push(Symbol::Term(')'));
    let mut nested: Vec<Symbol<char>> = Vec::new();
    nested.push(Symbol::Term('('));
    nested.push(Symbol::Var(start));
    nested.push(Symbol::Term(')'));
    let mut twice: Vec<Symbol<char>> = Vec::new();
    twice.push(Symbol::Var(start));
    twice.push(Symbol::Var(start));
    proof {
        assert(pair@ =~= bracket_productions()[0].body);
        assert(nested@ =~= bracket_productions()[1].body);
        assert(twice@ =~= bracket_productions()[2].body);
    }
    builder.add_rule(Rule::new(start, pair));
    builder.add_rule(Rule::new(start, nested));
    builder.add_rule(Rule::new(start, twice));
    let cfg = builder.build(start);
    proof {
        assert(cfg.productions() =~= bracket_productions());
    }
    cfg
}

} // verus!
