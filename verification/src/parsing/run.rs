//! The chart that the Earley parser builds, said step by step.

use vstd::prelude::*;
use crate::grammar::{Production, Symbol};
use crate::parsing::chart::{
    advance, alternatives, fresh_state, is_complete, next_is_var, row_bound,
    with_link, with_state, Parent, State,
};

verus! {

/// The states and parents of a chart.
pub ghost struct Sheet {
    pub ss: Seq<Seq<State>>,
    pub ps: Seq<Seq<Parent>>,
}

/// The chart with `st` behind the states at position `r`, with parent `p`,
/// unless `st` stands there.
pub open spec fn put(c: Sheet, r: int, st: State, p: Parent) -> Sheet {
    if c.ss[r].contains(st) {
        c
    } else {
        Sheet { ss: with_state(c.ss, r, st), ps: with_link(c.ps, r, p) }
    }
}

/// The number of steps that are enough to go through position `r`.
pub open spec fn enough<T>(g: Seq<Production<T>>, r: int) -> nat {
    if row_bound(g, r) >= 0 {
        (row_bound(g, r) + 1) as nat
    } else {
        1
    }
}

/// The chart after the finished state `i` at position `r` has moved on the
/// states from index `j` on that wait for its head where it began.
pub open spec fn complete_from<T>(
    g: Seq<Production<T>>,
    c: Sheet,
    r: int,
    i: int,
    j: int,
    fuel: nat,
) -> Sheet
    decreases fuel,
{
    let done = c.ss[r][i];
    let l = done.l as int;
    if fuel == 0 || j >= c.ss[l].len() {
        c
    } else {
        let w = c.ss[l][j];
        let c2 = if next_is_var(g, w, g[done.rule_idx as int].head) {
            put(c, r, advance(w), Parent::Complete(i as usize, j as usize))
        } else {
            c
        };
        complete_from(g, c2, r, i, j + 1, (fuel - 1) as nat)
    }
}

/// The chart after the productions `alts`, from index `k` on, have been
/// started at position `r`.
pub open spec fn predict_from(c: Sheet, r: int, alts: Seq<usize>, k: int) -> Sheet
    decreases alts.len() - k,
{
    if k < 0 || k >= alts.len() {
        c
    } else {
        predict_from(put(c, r, fresh_state(r, alts[k] as int), Parent::Start), r, alts, k + 1)
    }
}

/// The chart after state `i` at position `r`, which waits for the variable
/// `v`, has been moved on over the finished rules of `v` from index `k` on
/// that began at `r`.
pub open spec fn skip_from<T>(
    g: Seq<Production<T>>,
    c: Sheet,
    r: int,
    i: int,
    v: int,
    k: int,
    fuel: nat,
) -> Sheet
    decreases fuel,
{
    if fuel == 0 || k >= c.ss[r].len() {
        c
    } else {
        let d = c.ss[r][k];
        let c2 = if d.l == r && is_complete(g, d) && g[d.rule_idx as int].head == v {
            put(c, r, advance(c.ss[r][i]), Parent::Complete(k as usize, i as usize))
        } else {
            c
        };
        skip_from(g, c2, r, i, v, k + 1, (fuel - 1) as nat)
    }
}

/// The chart after state `i` at position `r` has been worked off.
pub open spec fn process<T>(g: Seq<Production<T>>, word: Seq<T>, c: Sheet, r: int, i: int) -> Sheet {
    let st = c.ss[r][i];
    let body = g[st.rule_idx as int].body;
    if st.parsed >= body.len() {
        complete_from(g, c, r, i, 0, enough(g, st.l as int))
    } else {
        match body[st.parsed as int] {
            Symbol::Var(v) => skip_from(
                g,
                predict_from(c, r, alternatives(g, v.0 as int), 0),
                r,
                i,
                v.0 as int,
                0,
                enough(g, r),
            ),
            Symbol::Term(t) => if r < word.len() && word[r] == t {
                put(c, r + 1, advance(st), Parent::Scan(i as usize))
            } else {
                c
            },
        }
    }
}

/// The chart after the states at position `r` have been worked off from
/// index `i` on, those that come to stand there in the course of it too.
pub open spec fn work_row<T>(
    g: Seq<Production<T>>,
    word: Seq<T>,
    c: Sheet,
    r: int,
    i: int,
    fuel: nat,
) -> Sheet
    decreases fuel,
{
    if fuel == 0 || i >= c.ss[r].len() {
        c
    } else {
        work_row(g, word, process(g, word, c, r, i), r, i + 1, (fuel - 1) as nat)
    }
}

/// The chart after the positions from `r` on have been worked off.
pub open spec fn work<T>(g: Seq<Production<T>>, word: Seq<T>, c: Sheet, r: int) -> Sheet
    decreases word.len() + 1 - r,
{
    if r < 0 || r > word.len() {
        c
    } else {
        work(g, word, work_row(g, word, c, r, 0, enough(g, r)), r + 1)
    }
}

/// The chart without states, for a word of `n` terminals.
pub open spec fn blank(n: nat) -> Sheet {
    Sheet {
        ss: Seq::new(n + 1, |r: int| Seq::<State>::empty()),
        ps: Seq::new(n + 1, |r: int| Seq::<Parent>::empty()),
    }
}

/// The chart of the grammar `g` with the start variable `start` for
/// `word`: the rules of `start` are started at the first position, then
/// the positions are worked off one after the other, each from its first
/// state to its last.
pub open spec fn chart_of<T>(g: Seq<Production<T>>, word: Seq<T>, start: int) -> Sheet {
    work(g, word, predict_from(blank(word.len()), 0, alternatives(g, start), 0), 0)
}

} // verus!
