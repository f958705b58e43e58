//! Derivation trees: what it means for a variable to derive a word.

use vstd::prelude::*;
use crate::grammar::{Production, Symbol};

verus! {

/// A derivation tree. A leaf is a terminal; a node applies the production
/// with the given index to the trees below it.
pub ghost enum Tree<T> {
    Leaf(T),
    Node(int, Seq<Tree<T>>),
}

/// Whether the root of `t` stands for the symbol `s`.
pub open spec fn tree_matches<T>(g: Seq<Production<T>>, t: Tree<T>, s: Symbol<T>) -> bool {
    match t {
        Tree::Leaf(a) => s == Symbol::Term(a),
        Tree::Node(r, _) => 0 <= r < g.len() && (s matches Symbol::Var(v) && v.0 == g[r].head),
    }
}

/// Whether every node of `t` applies a production of `g` to children that
/// stand for the symbols of its body, one for one.
pub open spec fn tree_ok<T>(g: Seq<Production<T>>, t: Tree<T>) -> bool
    decreases t,
{
    match t {
        Tree::Leaf(_) => true,
        Tree::Node(r, kids) => {
            &&& 0 <= r < g.len()
            &&& kids.len() == g[r].body.len()
            &&& forall|i: int|
                0 <= i < kids.len() ==> tree_matches(g, #[trigger] kids[i], g[r].body[i])
                    && tree_ok(g, kids[i])
        },
    }
}

/// The word at the leaves of `t`, from left to right.
pub open spec fn fringe<T>(t: Tree<T>) -> Seq<T>
    decreases t, 0nat,
{
    match t {
        Tree::Leaf(a) => seq![a],
        Tree::Node(_, kids) => forest_fringe(kids),
    }
}

/// The word at the leaves of a row of trees.
pub open spec fn forest_fringe<T>(kids: Seq<Tree<T>>) -> Seq<T>
    decreases kids, 1nat,
{
    if kids.len() == 0 {
        Seq::empty()
    } else {
        forest_fringe(kids.drop_last()) + fringe(kids.last())
    }
}

/// Whether `t` shows that the variable `v` derives the word `w` in `g`.
pub open spec fn derivation_of<T>(g: Seq<Production<T>>, t: Tree<T>, v: int, w: Seq<T>) -> bool {
    &&& t is Node
    &&& tree_ok(g, t)
    &&& g[t->Node_0].head == v
    &&& fringe(t) == w
}

/// Whether the variable `v` derives the word `w` in `g`.
pub open spec fn derives<T>(g: Seq<Production<T>>, v: int, w: Seq<T>) -> bool {
    exists|t: Tree<T>| derivation_of(g, t, v, w)
}

/// The number of nodes on the longest way from the root of `t` to a leaf.
pub open spec fn height<T>(t: Tree<T>) -> nat
    decreases t, 0nat,
{
    match t {
        Tree::Leaf(_) => 0,
        Tree::Node(_, kids) => 1 + forest_height(kids),
    }
}

/// The height of the highest tree of a row.
pub open spec fn forest_height<T>(kids: Seq<Tree<T>>) -> nat
    decreases kids, 1nat,
{
    if kids.len() == 0 {
        0
    } else if height(kids.last()) > forest_height(kids.drop_last()) {
        height(kids.last())
    } else {
        forest_height(kids.drop_last())
    }
}

/// No tree of a row is higher than the row.
pub proof fn lemma_forest_height<T>(kids: Seq<Tree<T>>, j: int)
    requires
        0 <= j < kids.len(),
    ensures
        height(kids[j]) <= forest_height(kids),
    decreases kids.len(),
{
    if j < kids.len() - 1 {
        lemma_forest_height(kids.drop_last(), j);
        assert(kids.drop_last()[j] == kids[j]);
    }
}

/// A row of one tree has the leaves of that tree.
pub proof fn lemma_forest_fringe_one<T>(t: Tree<T>)
    ensures
        forest_fringe(seq![t]) == fringe(t),
{
    assert(seq![t].drop_last() =~= Seq::<Tree<T>>::empty());
    assert(forest_fringe(Seq::<Tree<T>>::empty()) =~= Seq::<T>::empty());
    assert(Seq::<T>::empty() + fringe(t) =~= fringe(t));
}

/// A row of two trees has the leaves of the first, then those of the second.
pub proof fn lemma_forest_fringe_two<T>(a: Tree<T>, b: Tree<T>)
    ensures
        forest_fringe(seq![a, b]) == fringe(a) + fringe(b),
{
    assert(seq![a, b].drop_last() =~= seq![a]);
    lemma_forest_fringe_one(a);
}

/// Two rows of trees of one length whose trees have the same leaves, tree
/// by tree, have the same leaves.
pub proof fn lemma_forest_fringe_pointwise<T>(a: Seq<Tree<T>>, b: Seq<Tree<T>>)
    requires
        a.len() == b.len(),
        forall|j: int| 0 <= j < a.len() ==> fringe(#[trigger] a[j]) == fringe(b[j]),
    ensures
        forest_fringe(a) == forest_fringe(b),
    decreases a.len(),
{
    if a.len() > 0 {
        assert forall|j: int| 0 <= j < a.drop_last().len() implies fringe(
            #[trigger] a.drop_last()[j],
        ) == fringe(b.drop_last()[j]) by {
            assert(a.drop_last()[j] == a[j]);
            assert(fringe(a[j]) == fringe(b[j]));
        }
        lemma_forest_fringe_pointwise(a.drop_last(), b.drop_last());
        assert(fringe(a[a.len() - 1]) == fringe(b[a.len() - 1]));
    }
}

/// The leaves of two rows of trees, one after the other.
pub proof fn lemma_forest_fringe_concat<T>(a: Seq<Tree<T>>, b: Seq<Tree<T>>)
    ensures
        forest_fringe(a + b) == forest_fringe(a) + forest_fringe(b),
    decreases b.len(),
{
    if b.len() == 0 {
        assert(a + b =~= a);
        assert(forest_fringe(a) + forest_fringe(b) =~= forest_fringe(a));
    } else {
        assert((a + b).drop_last() =~= a + b.drop_last());
        lemma_forest_fringe_concat(a, b.drop_last());
        assert((a + b).last() == b.last());
        assert((forest_fringe(a) + forest_fringe(b.drop_last())) + fringe(b.last())
            =~= forest_fringe(a) + (forest_fringe(b.drop_last()) + fringe(b.last())));
    }
}

/// A tree of a grammar without empty bodies has a leaf.
pub proof fn lemma_fringe_nonempty<T>(g: Seq<Production<T>>, t: Tree<T>)
    requires
        tree_ok(g, t),
        forall|r: int| 0 <= r < g.len() ==> (#[trigger] g[r]).body.len() > 0,
    ensures
        fringe(t).len() > 0,
    decreases t,
{
    match t {
        Tree::Leaf(_) => {},
        Tree::Node(r, kids) => {
            let last = kids[kids.len() - 1];
            assert(tree_ok(g, last));
            lemma_fringe_nonempty(g, last);
        },
    }
}

} // verus!
