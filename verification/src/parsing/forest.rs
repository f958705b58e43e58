//! The derivation that a state of the Earley chart stands for.

use vstd::prelude::*;
use crate::derivation::{forest_fringe, fringe, tree_matches, tree_ok, Tree};
use crate::grammar::Production;
use crate::parsing::chart::{chart_ok, slot_ok, Parent, State};

verus! {

/// The trees of the symbols that state `i` at position `r` has matched,
/// read off the parents.
pub open spec fn forest_of<T>(
    word: Seq<T>,
    ss: Seq<Seq<State>>,
    ps: Seq<Seq<Parent>>,
    r: int,
    i: int,
) -> Seq<Tree<T>>
    decreases r, i,
{
    if 0 <= r < ss.len() && 0 <= i < ss[r].len() {
        match ps[r][i] {
            Parent::Start => Seq::empty(),
            Parent::Scan(k) => {
                if r >= 1 {
                    forest_of(word, ss, ps, r - 1, k as int).push(Tree::Leaf(word[r - 1]))
                } else {
                    Seq::empty()
                }
            },
            Parent::Complete(k, j) => {
                let c = ss[r][k as int];
                if k < i && (c.l < r || (c.l == r && j < i)) {
                    forest_of(word, ss, ps, c.l as int, j as int).push(
                        Tree::Node(c.rule_idx as int, forest_of(word, ss, ps, r, k as int)),
                    )
                } else {
                    Seq::empty()
                }
            },
        }
    } else {
        Seq::empty()
    }
}

/// The fringe of a row of trees with one more tree at its end.
pub proof fn lemma_forest_fringe_push<T>(kids: Seq<Tree<T>>, t: Tree<T>)
    ensures
        forest_fringe(kids.push(t)) == forest_fringe(kids) + fringe(t),
{
    assert(kids.push(t).drop_last() == kids);
}

/// Whether `f` is a row of trees of `g` for the first symbols of the body
/// of production `a`.
pub open spec fn forest_ok<T>(g: Seq<Production<T>>, a: int, f: Seq<Tree<T>>) -> bool {
    &&& 0 <= a < g.len()
    &&& f.len() <= g[a].body.len()
    &&& forall|m: int|
        0 <= m < f.len() ==> tree_matches(g, #[trigger] f[m], g[a].body[m]) && tree_ok(g, f[m])
}

/// In a chart that is in order, the trees of a state are derivations of the
/// symbols that it has matched, and their leaves are the part of the word
/// between the position where the state began and the one where it stands.
pub proof fn lemma_forest_sound<T>(
    g: Seq<Production<T>>,
    word: Seq<T>,
    ss: Seq<Seq<State>>,
    ps: Seq<Seq<Parent>>,
    r: int,
    i: int,
)
    requires
        chart_ok(g, word, ss, ps),
        0 <= r < ss.len(),
        0 <= i < ss[r].len(),
    ensures
        forest_ok(g, ss[r][i].rule_idx as int, forest_of(word, ss, ps, r, i)),
        forest_of(word, ss, ps, r, i).len() == ss[r][i].parsed,
        ss[r][i].l <= r,
        forest_fringe(forest_of(word, ss, ps, r, i)) == word.subrange(ss[r][i].l as int, r),
    decreases r, i,
{
    let st = ss[r][i];
    let f = forest_of(word, ss, ps, r, i);
    assert(slot_ok(g, word, ss, ps, r, i));
    match ps[r][i] {
        Parent::Start => {
            assert(word.subrange(r, r) == Seq::<T>::empty());
        },
        Parent::Scan(k) => {
            let f1 = forest_of(word, ss, ps, r - 1, k as int);
            lemma_forest_sound(g, word, ss, ps, r - 1, k as int);
            lemma_forest_fringe_push(f1, Tree::Leaf(word[r - 1]));
            assert(f == f1.push(Tree::Leaf(word[r - 1])));
            assert(slot_ok(g, word, ss, ps, r - 1, k as int));
            assert forall|m: int| 0 <= m < f.len() implies tree_matches(
                g,
                #[trigger] f[m],
                g[st.rule_idx as int].body[m],
            ) && tree_ok(g, f[m]) by {
                let prev = ss[r - 1][k as int];
                assert(prev.rule_idx == st.rule_idx);
                assert(f1.len() == prev.parsed);
                if m < f1.len() {
                    assert(f[m] == f1[m]);
                    assert(tree_matches(g, f1[m], g[prev.rule_idx as int].body[m]));
                } else {
                    assert(f[m] == Tree::Leaf(word[r - 1]));
                    assert(m == st.parsed - 1);
                }
            }
            assert(word.subrange(st.l as int, r - 1) + seq![word[r - 1]] == word.subrange(
                st.l as int,
                r,
            ));
        },
        Parent::Complete(k, j) => {
            let c = ss[r][k as int];
            assert(slot_ok(g, word, ss, ps, r, k as int));
            let f1 = forest_of(word, ss, ps, c.l as int, j as int);
            let f2 = forest_of(word, ss, ps, r, k as int);
            lemma_forest_sound(g, word, ss, ps, c.l as int, j as int);
            lemma_forest_sound(g, word, ss, ps, r, k as int);
            let t = Tree::Node(c.rule_idx as int, f2);
            lemma_forest_fringe_push(f1, t);
            assert(tree_ok(g, t));
            assert(f == f1.push(t));
            assert(slot_ok(g, word, ss, ps, c.l as int, j as int));
            assert forall|m: int| 0 <= m < f.len() implies tree_matches(
                g,
                #[trigger] f[m],
                g[st.rule_idx as int].body[m],
            ) && tree_ok(g, f[m]) by {
                let prev = ss[c.l as int][j as int];
                assert(prev.rule_idx == st.rule_idx);
                assert(f1.len() == prev.parsed);
                if m < f1.len() {
                    assert(f[m] == f1[m]);
                    assert(tree_matches(g, f1[m], g[prev.rule_idx as int].body[m]));
                } else {
                    assert(f[m] == t);
                    assert(m == st.parsed - 1);
                    assert(tree_matches(g, t, g[st.rule_idx as int].body[m]));
                }
            }
            assert(word.subrange(st.l as int, c.l as int) + word.subrange(c.l as int, r)
                == word.subrange(st.l as int, r));
        },
    }
}

} // verus!
