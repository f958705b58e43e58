//! A chart that has been worked off holds a state for every derivation.

use vstd::prelude::*;
use crate::derivation::{derivation_of, forest_fringe, fringe, tree_matches, tree_ok, Tree};
use crate::grammar::Production;
use crate::parsing::chart::{
    advance, chart_ok, closed_at, closed_upto, fresh_state, is_complete, next_is_term,
    next_is_var, seeded, slot_ok, zero_closed, zero_closed_upto, Parent, State,
};
use crate::parsing::forest::forest_ok;

verus! {

/// Whether the number of productions and the length of each body fit in a
/// machine word.
pub open spec fn machine_sized<T>(g: Seq<Production<T>>) -> bool {
    &&& g.len() <= usize::MAX
    &&& forall|a: int| 0 <= a < g.len() ==> (#[trigger] g[a]).body.len() <= usize::MAX
}

/// The state of production `a` that began at `l` and has matched `k` symbols.
pub open spec fn state_at(l: int, a: int, k: int) -> State {
    State { l: l as usize, rule_idx: a as usize, parsed: k as usize }
}

/// Whether `st` shows that the variable `start` derives the whole word.
pub open spec fn accepting<T>(g: Seq<Production<T>>, start: int, st: State) -> bool {
    &&& st.l == 0
    &&& is_complete(g, st)
    &&& g[st.rule_idx as int].head == start
}

/// If production `a` was started at `l`, and the trees `kids` derive the
/// part of the word between `l` and `r` from the first symbols of its body,
/// then the state that has matched those symbols stands at `r`.
pub proof fn lemma_forest_in_chart<T>(
    g: Seq<Production<T>>,
    word: Seq<T>,
    ss: Seq<Seq<State>>,
    ps: Seq<Seq<Parent>>,
    l: int,
    a: int,
    kids: Seq<Tree<T>>,
    r: int,
)
    requires
        chart_ok(g, word, ss, ps),
        closed_upto(g, word, ss, ss.len() as int, 0),
        zero_closed_upto(g, ss, ss.len() as int, 0),
        machine_sized(g),
        word.len() < usize::MAX,
        0 <= l <= r <= word.len(),
        forest_ok(g, a, kids),
        forest_fringe(kids) == word.subrange(l, r),
        ss[l].contains(fresh_state(l, a)),
    ensures
        ss[r].contains(state_at(l, a, kids.len() as int)),
    decreases kids,
{
    if kids.len() == 0 {
        assert(word.subrange(l, r).len() == 0);
    } else {
        let k = kids.len() as int;
        let prefix = kids.drop_last();
        let last = kids.last();
        let part1 = forest_fringe(prefix);
        let part2 = fringe(last);
        let m = l + part1.len();
        assert(forest_fringe(kids) == part1 + part2);
        assert((part1 + part2).len() == r - l);
        assert(part1 == word.subrange(l, m)) by {
            assert(part1 =~= (part1 + part2).subrange(0, part1.len() as int));
            assert(word.subrange(l, r).subrange(0, part1.len() as int) =~= word.subrange(l, m));
        }
        assert(part2 == word.subrange(m, r)) by {
            assert(part2 =~= (part1 + part2).subrange(part1.len() as int, r - l));
            assert(word.subrange(l, r).subrange(part1.len() as int, r - l) =~= word.subrange(m, r));
        }
        assert(forest_ok(g, a, prefix)) by {
            assert forall|i: int| 0 <= i < prefix.len() implies tree_matches(
                g,
                #[trigger] prefix[i],
                g[a].body[i],
            ) && tree_ok(g, prefix[i]) by {
                assert(prefix[i] == kids[i]);
            }
        }
        lemma_forest_in_chart(g, word, ss, ps, l, a, prefix, m);
        let wst = state_at(l, a, k - 1);
        let iw = choose|iw: int| 0 <= iw < ss[m].len() && ss[m][iw] == wst;
        assert(closed_at(g, word, ss, m, iw));
        assert(tree_matches(g, kids[k - 1], g[a].body[k - 1]) && tree_ok(g, kids[k - 1]));
        assert(advance(wst) == state_at(l, a, k));
        match last {
            Tree::Leaf(t) => {
                assert(part2 == seq![t]);
                assert(part2.len() == 1);
                assert(part2[0] == word[m]);
                assert(next_is_term(g, wst, word[m]));
            },
            Tree::Node(b, kids2) => {
                assert(next_is_var(g, wst, g[b].head));
                assert(ss[m].contains(fresh_state(m, b)));
                assert(forest_ok(g, b, kids2));
                assert(part2 == forest_fringe(kids2));
                lemma_forest_in_chart(g, word, ss, ps, m, b, kids2, r);
                let c = state_at(m, b, kids2.len() as int);
                let ic = choose|ic: int| 0 <= ic < ss[r].len() && ss[r][ic] == c;
                assert(slot_ok(g, word, ss, ps, r, ic));
                assert(closed_at(g, word, ss, r, ic));
                assert(is_complete(g, c));
                assert(ss[c.l as int][iw] == wst);
                if m == r {
                    assert(zero_closed(g, ss, r, ic, iw));
                }
            },
        }
    }
}

/// In a chart that has been worked off, every derivation of the word from
/// `start` has its state at the last position.
pub proof fn lemma_derivation_in_chart<T>(
    g: Seq<Production<T>>,
    word: Seq<T>,
    ss: Seq<Seq<State>>,
    ps: Seq<Seq<Parent>>,
    start: int,
    t: Tree<T>,
)
    requires
        chart_ok(g, word, ss, ps),
        closed_upto(g, word, ss, ss.len() as int, 0),
        seeded(g, ss, start),
        zero_closed_upto(g, ss, ss.len() as int, 0),
        machine_sized(g),
        word.len() < usize::MAX,
        derivation_of(g, t, start, word),
    ensures
        exists|k: int|
            0 <= k < ss[word.len() as int].len() && accepting(
                g,
                start,
                #[trigger] ss[word.len() as int][k],
            ),
{
    let a = t->Node_0;
    let kids = t->Node_1;
    let n = word.len() as int;
    assert(g[a].head == start);
    assert(word.subrange(0, n) == word);
    lemma_forest_in_chart(g, word, ss, ps, 0, a, kids, n);
    let st = state_at(0, a, kids.len() as int);
    let k = choose|k: int| 0 <= k < ss[n].len() && ss[n][k] == st;
    assert(accepting(g, start, ss[n][k]));
}

} // verus!
