//! Which variables derive the empty word.

use vstd::prelude::*;
use crate::derivation::{derivation_of, derives, forest_fringe, fringe, tree_matches, tree_ok, Tree};
use crate::grammar::{Production, Symbol, Var};

verus! {

/// Whether `s` is a variable that `nullable` marks.
pub open spec fn sym_nullable<T>(s: Symbol<T>, nullable: Seq<bool>) -> bool {
    s matches Symbol::Var(u) && u.0 < nullable.len() && nullable[u.0 as int]
}

/// Whether every symbol of `body` is a variable that `nullable` marks.
pub open spec fn body_nullable<T>(body: Seq<Symbol<T>>, nullable: Seq<bool>) -> bool {
    forall|j: int| 0 <= j < body.len() ==> sym_nullable(#[trigger] body[j], nullable)
}

/// Whether every variable that `nullable` marks derives the empty word.
pub open spec fn nullable_sound<T>(g: Seq<Production<T>>, nullable: Seq<bool>) -> bool {
    forall|v: int|
        0 <= v < nullable.len() && #[trigger] nullable[v] ==> derives(g, v, Seq::<T>::empty())
}

/// Whether `nullable` marks the head of every production whose body it
/// marks throughout.
pub open spec fn nullable_closed<T>(g: Seq<Production<T>>, nullable: Seq<bool>) -> bool {
    forall|r: int|
        0 <= r < g.len() && body_nullable((#[trigger] g[r]).body, nullable) ==> 0 <= g[r].head
            < nullable.len() && nullable[g[r].head]
}

/// A row of trees has no leaves where none of its trees has.
pub proof fn lemma_forest_fringe_empty<T>(kids: Seq<Tree<T>>)
    ensures
        forest_fringe(kids).len() == 0 <==> forall|j: int|
            0 <= j < kids.len() ==> fringe(#[trigger] kids[j]).len() == 0,
    decreases kids.len(),
{
    if kids.len() > 0 {
        let front = kids.drop_last();
        lemma_forest_fringe_empty(front);
        if forest_fringe(kids).len() == 0 {
            assert forall|j: int| 0 <= j < kids.len() implies fringe(#[trigger] kids[j]).len()
                == 0 by {
                if j < front.len() {
                    assert(front[j] == kids[j]);
                }
            }
        }
        if forall|j: int| 0 <= j < kids.len() ==> fringe(#[trigger] kids[j]).len() == 0 {
            assert forall|j: int| 0 <= j < front.len() implies fringe(#[trigger] front[j]).len()
                == 0 by {
                assert(front[j] == kids[j]);
            }
            assert(fringe(kids[kids.len() - 1]).len() == 0);
        }
    }
}

/// The head of a production whose body is marked throughout derives the
/// empty word, if the marks are sound.
pub proof fn lemma_nullable_rule<T>(g: Seq<Production<T>>, nullable: Seq<bool>, r: int)
    requires
        nullable_sound(g, nullable),
        0 <= r < g.len(),
        body_nullable(g[r].body, nullable),
    ensures
        derives(g, g[r].head, Seq::<T>::empty()),
{
    let body = g[r].body;
    let kids = Seq::new(
        body.len(),
        |j: int|
            choose|t: Tree<T>|
                derivation_of(g, t, (body[j]->Var_0).0 as int, Seq::<T>::empty()),
    );
    assert forall|j: int| 0 <= j < kids.len() implies tree_matches(g, #[trigger] kids[j], body[j])
        && tree_ok(g, kids[j]) && fringe(kids[j]).len() == 0 by {
        assert(sym_nullable(body[j], nullable));
        let u = (body[j]->Var_0).0 as int;
        assert(nullable[u]);
        assert(derives(g, u, Seq::<T>::empty()));
    }
    lemma_forest_fringe_empty(kids);
    let t = Tree::Node(r, kids);
    assert(forest_fringe(kids) =~= Seq::<T>::empty());
    assert(derivation_of(g, t, g[r].head, Seq::<T>::empty()));
}

/// The root of a derivation of the empty word is marked, if the marks are
/// closed.
pub proof fn lemma_nullable_complete<T>(g: Seq<Production<T>>, nullable: Seq<bool>, t: Tree<T>)
    requires
        nullable_closed(g, nullable),
        t is Node,
        tree_ok(g, t),
        fringe(t).len() == 0,
    ensures
        0 <= g[t->Node_0].head < nullable.len(),
        nullable[g[t->Node_0].head],
    decreases t,
{
    let r = t->Node_0;
    let kids = t->Node_1;
    lemma_forest_fringe_empty(kids);
    assert forall|j: int| 0 <= j < g[r].body.len() implies sym_nullable(
        #[trigger] g[r].body[j],
        nullable,
    ) by {
        assert(fringe(kids[j]).len() == 0);
        assert(tree_matches(g, kids[j], g[r].body[j]) && tree_ok(g, kids[j]));
        match kids[j] {
            Tree::Leaf(a) => {
                assert(fringe(kids[j]) == seq![a]);
            },
            Tree::Node(r2, _) => {
                lemma_nullable_complete(g, nullable, kids[j]);
            },
        }
    }
}

/// Marks that are sound and closed mark the variables that derive the
/// empty word, and no others.
pub proof fn lemma_nullable_exact<T>(g: Seq<Production<T>>, nullable: Seq<bool>, v: int)
    requires
        nullable_sound(g, nullable),
        nullable_closed(g, nullable),
        0 <= v < nullable.len(),
    ensures
        nullable[v] <==> derives(g, v, Seq::<T>::empty()),
{
    if derives(g, v, Seq::<T>::empty()) {
        let t = choose|t: Tree<T>| derivation_of(g, t, v, Seq::<T>::empty());
        lemma_nullable_complete(g, nullable, t);
    }
}

/// Whether `queue` holds a variable of `body`.
pub open spec fn body_queued<T>(body: Seq<Symbol<T>>, queue: Seq<Var>) -> bool {
    exists|j: int|
        0 <= j < body.len() && (#[trigger] body[j] matches Symbol::Var(u) && queue.contains(u))
}

/// Whether production `r` needs no further look: its head is marked, its
/// body is not marked throughout, or a variable of its body waits in the
/// queue.
pub open spec fn covered<T>(
    g: Seq<Production<T>>,
    nullable: Seq<bool>,
    queue: Seq<Var>,
    r: int,
) -> bool {
    ||| (0 <= g[r].head < nullable.len() && nullable[g[r].head])
    ||| !body_nullable(g[r].body, nullable)
    ||| body_queued(g[r].body, queue)
}

/// Whether the lists `deps` hold, for each variable, the productions in
/// whose body it stands.
pub open spec fn deps_ok<T>(g: Seq<Production<T>>, deps: Seq<Seq<usize>>, upto: int) -> bool {
    &&& forall|u: int, k: int|
        0 <= u < deps.len() && 0 <= k < deps[u].len() ==> (#[trigger] deps[u][k]) < g.len()
    &&& forall|r: int, j: int|
        0 <= r < upto && 0 <= j < g[r].body.len() ==> (#[trigger] g[r].body[j] matches Symbol::Var(
            u,
        ) ==> u.0 < deps.len() && deps[u.0 as int].contains(r as usize))
}

/// Whether production `r` is one of those of `list` from index `idx` on.
pub open spec fn awaits(list: Seq<usize>, idx: int, r: int) -> bool {
    exists|k: int| idx <= k < list.len() && #[trigger] list[k] == r
}

/// A production that needed no further look needs none, or is among those
/// in which the variable that left the queue stands.
pub proof fn lemma_covered_pop<T>(
    g: Seq<Production<T>>,
    nullable: Seq<bool>,
    queue: Seq<Var>,
    deps: Seq<Seq<usize>>,
    r: int,
)
    requires
        0 <= r < g.len(),
        g.len() <= usize::MAX,
        covered(g, nullable, queue, r),
        queue.len() > 0,
        deps_ok(g, deps, g.len() as int),
    ensures
        covered(g, nullable, queue.subrange(1, queue.len() as int), r) || awaits(
            deps[queue[0].0 as int],
            0,
            r,
        ),
{
    let rest = queue.subrange(1, queue.len() as int);
    let front = queue[0];
    if body_queued(g[r].body, queue) {
        let body = g[r].body;
        let j = choose|j: int|
            0 <= j < body.len() && (#[trigger] body[j] matches Symbol::Var(u) && queue.contains(u));
        let u = body[j]->Var_0;
        let i = choose|i: int| 0 <= i < queue.len() && queue[i] == u;
        if i > 0 {
            assert(rest[i - 1] == u);
            assert(body_queued(body, rest));
        } else {
            let list = deps[front.0 as int];
            assert(list.contains(r as usize));
            let k = choose|k: int| 0 <= k < list.len() && list[k] == r as usize;
            assert(list[k] == r);
        }
    }
}

/// Marking a variable and putting it in the queue leaves no production in
/// need of a look that did not need one.
pub proof fn lemma_covered_mark<T>(
    g: Seq<Production<T>>,
    nullable: Seq<bool>,
    queue: Seq<Var>,
    h: Var,
    r: int,
)
    requires
        0 <= r < g.len(),
        h.0 < nullable.len(),
        covered(g, nullable, queue, r),
    ensures
        covered(g, nullable.update(h.0 as int, true), queue.push(h), r),
{
    let nullable2 = nullable.update(h.0 as int, true);
    let queue2 = queue.push(h);
    let body = g[r].body;
    assert(queue2[queue.len() as int] == h);
    if body_queued(body, queue) {
        let j = choose|j: int|
            0 <= j < body.len() && (#[trigger] body[j] matches Symbol::Var(u) && queue.contains(u));
        let u = body[j]->Var_0;
        let i = choose|i: int| 0 <= i < queue.len() && queue[i] == u;
        assert(queue2[i] == u);
        assert(body_queued(body, queue2));
    } else if !body_nullable(body, nullable) {
        let j = choose|j: int| 0 <= j < body.len() && !sym_nullable(#[trigger] body[j], nullable);
        if sym_nullable(body[j], nullable2) {
            assert(body[j]->Var_0 == h);
            assert(body_queued(body, queue2));
        }
    }
}

} // verus!
