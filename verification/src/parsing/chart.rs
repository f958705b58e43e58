//! The Earley chart: its states, what holds of them, and when the chart
//! is complete.

use vstd::prelude::*;
use crate::grammar::{Production, Symbol};

verus! {

/// The indices of the productions of `g` whose head is `v`, in rising order.
pub open spec fn alternatives<T>(g: Seq<Production<T>>, v: int) -> Seq<usize>
    decreases g.len(),
{
    if g.len() == 0 {
        Seq::empty()
    } else if g.last().head == v {
        alternatives(g.drop_last(), v).push((g.len() - 1) as usize)
    } else {
        alternatives(g.drop_last(), v)
    }
}

/// A rule that is matched in part: it began at position `l`, and the first
/// `parsed` symbols of its body have been matched.
#[derive(Debug, Clone, Copy, PartialEq, Eq, Structural)]
pub struct State {
    pub l: usize,
    pub rule_idx: usize,
    pub parsed: usize,
}

/// How a state came into the chart.
#[derive(Debug, Clone, Copy)]
pub enum Parent {
    /// The state was predicted, or it is a rule of the start variable.
    Start,
    /// A terminal was read after the state with this index, one position back.
    Scan(usize),
    /// The first index is a finished state at the same position; the second
    /// is the state that waited for its head, at the position where the
    /// finished one began.
    Complete(usize, usize),
}

/// The chart: for each position of the word the states reached there and,
/// for each state, its parent.
pub struct Chart {
    pub states: Vec<Vec<State>>,
    pub parents: Vec<Vec<Parent>>,
}

impl Chart {
    /// The states, position by position.
    pub open spec fn rows(&self) -> Seq<Seq<State>> {
        Seq::new(self.states@.len(), |r: int| self.states@[r]@)
    }

    /// The parents, position by position.
    pub open spec fn links(&self) -> Seq<Seq<Parent>> {
        Seq::new(self.parents@.len(), |r: int| self.parents@[r]@)
    }

    /// The states and the parents.
    pub open spec fn sheet(&self) -> crate::parsing::run::Sheet {
        crate::parsing::run::Sheet { ss: self.rows(), ps: self.links() }
    }
}

/// The state with one more symbol matched.
pub open spec fn advance(st: State) -> State {
    State { l: st.l, rule_idx: st.rule_idx, parsed: (st.parsed + 1) as usize }
}

/// Whether `st` can stand at position `r`.
pub open spec fn item_ok<T>(g: Seq<Production<T>>, r: int, st: State) -> bool {
    &&& st.l <= r
    &&& st.rule_idx < g.len()
    &&& st.parsed <= g[st.rule_idx as int].body.len()
}

/// Whether the parent `p` accounts for the state with index `i` at position `r`.
pub open spec fn link_ok<T>(
    g: Seq<Production<T>>,
    word: Seq<T>,
    ss: Seq<Seq<State>>,
    r: int,
    i: int,
    p: Parent,
) -> bool {
    let st = ss[r][i];
    match p {
        Parent::Start => st.parsed == 0 && st.l == r,
        Parent::Scan(k) => {
            &&& r >= 1
            &&& k < ss[r - 1].len()
            &&& st.parsed >= 1
            &&& st == advance(ss[r - 1][k as int])
            &&& st.parsed == ss[r - 1][k as int].parsed + 1
            &&& g[st.rule_idx as int].body[st.parsed - 1] == Symbol::Term(word[r - 1])
        },
        Parent::Complete(k, j) => {
            let c = ss[r][k as int];
            &&& k < i
            &&& c.parsed == g[c.rule_idx as int].body.len()
            &&& j < ss[c.l as int].len()
            &&& c.l == r ==> j < i
            &&& st.parsed >= 1
            &&& st == advance(ss[c.l as int][j as int])
            &&& st.parsed == ss[c.l as int][j as int].parsed + 1
            &&& g[st.rule_idx as int].body[st.parsed - 1] matches Symbol::Var(v)
            &&& v.0 == g[c.rule_idx as int].head
        },
    }
}

/// Whether the state with index `i` at position `r` can stand there and is
/// accounted for by its parent.
pub open spec fn slot_ok<T>(
    g: Seq<Production<T>>,
    word: Seq<T>,
    ss: Seq<Seq<State>>,
    ps: Seq<Seq<Parent>>,
    r: int,
    i: int,
) -> bool {
    item_ok(g, r, ss[r][i]) && link_ok(g, word, ss, r, i, ps[r][i])
}

/// Whether the chart is one for `word`, every state in it can stand where it
/// does and is accounted for by its parent, and no state stands twice at
/// one position.
pub open spec fn chart_ok<T>(
    g: Seq<Production<T>>,
    word: Seq<T>,
    ss: Seq<Seq<State>>,
    ps: Seq<Seq<Parent>>,
) -> bool {
    &&& ss.len() == word.len() + 1
    &&& ps.len() == ss.len()
    &&& forall|r: int| 0 <= r < ss.len() ==> (#[trigger] ss[r]).len() == ps[r].len()
    &&& forall|r: int| 0 <= r < ss.len() ==> (#[trigger] ss[r]).no_duplicates()
    &&& forall|r: int, i: int|
        0 <= r < ss.len() && 0 <= i < ss[r].len() ==> #[trigger] slot_ok(g, word, ss, ps, r, i)
}

/// The chart after one more state at position `r`.
pub open spec fn with_state(ss: Seq<Seq<State>>, r: int, st: State) -> Seq<Seq<State>> {
    ss.update(r, ss[r].push(st))
}

/// The parents after one more state at position `r`.
pub open spec fn with_link(ps: Seq<Seq<Parent>>, r: int, p: Parent) -> Seq<Seq<Parent>> {
    ps.update(r, ps[r].push(p))
}

/// A new state that can stand at `r` and is accounted for keeps the chart
/// in order.
pub proof fn lemma_push_keeps_chart<T>(
    g: Seq<Production<T>>,
    word: Seq<T>,
    ss: Seq<Seq<State>>,
    ps: Seq<Seq<Parent>>,
    r: int,
    st: State,
    p: Parent,
)
    requires
        chart_ok(g, word, ss, ps),
        0 <= r < ss.len(),
        !ss[r].contains(st),
        item_ok(g, r, st),
        link_ok(g, word, with_state(ss, r, st), r, ss[r].len() as int, p),
    ensures
        chart_ok(g, word, with_state(ss, r, st), with_link(ps, r, p)),
{
    let ss2 = with_state(ss, r, st);
    let ps2 = with_link(ps, r, p);
    assert forall|q: int| 0 <= q < ss2.len() implies (#[trigger] ss2[q]).no_duplicates() by {
        if q == r {
            assert forall|a: int, b: int|
                0 <= a < ss2[q].len() && 0 <= b < ss2[q].len() && a != b implies ss2[q][a]
                != ss2[q][b] by {
                if a < ss[r].len() && b < ss[r].len() {
                } else if a < ss[r].len() {
                    assert(ss[r].contains(ss[r][a]));
                } else {
                    assert(ss[r].contains(ss[r][b]));
                }
            }
        } else {
            assert(ss2[q] == ss[q]);
        }
    }
    assert forall|q: int, i: int|
        0 <= q < ss2.len() && 0 <= i < ss2[q].len() implies #[trigger] slot_ok(
        g,
        word,
        ss2,
        ps2,
        q,
        i,
    ) by {
        if q == r && i == ss[r].len() {
        } else {
            assert(ss2[q][i] == ss[q][i]);
            assert(ps2[q][i] == ps[q][i]);
            assert(slot_ok(g, word, ss, ps, q, i));
            match ps[q][i] {
                Parent::Start => {},
                Parent::Scan(k) => {
                    assert(ss2[q - 1][k as int] == ss[q - 1][k as int]);
                },
                Parent::Complete(k, j) => {
                    let c = ss[q][k as int];
                    assert(ss2[q][k as int] == c);
                    assert(slot_ok(g, word, ss, ps, q, k as int));
                    assert(ss2[c.l as int][j as int] == ss[c.l as int][j as int]);
                },
            }
        }
    }
}

/// Whether the next symbol that `st` waits for is the variable `v`.
pub open spec fn next_is_var<T>(g: Seq<Production<T>>, st: State, v: int) -> bool {
    &&& st.rule_idx < g.len()
    &&& st.parsed < g[st.rule_idx as int].body.len()
    &&& g[st.rule_idx as int].body[st.parsed as int] matches Symbol::Var(u)
    &&& u.0 == v
}

/// Whether the next symbol that `st` waits for is the terminal `t`.
pub open spec fn next_is_term<T>(g: Seq<Production<T>>, st: State, t: T) -> bool {
    &&& st.rule_idx < g.len()
    &&& st.parsed < g[st.rule_idx as int].body.len()
    &&& g[st.rule_idx as int].body[st.parsed as int] == Symbol::Term(t)
}

/// Whether the whole body of the rule of `st` has been matched.
pub open spec fn is_complete<T>(g: Seq<Production<T>>, st: State) -> bool {
    &&& st.rule_idx < g.len()
    &&& st.parsed == g[st.rule_idx as int].body.len()
}

/// The state that starts the production `a` at position `r`.
pub open spec fn fresh_state(r: int, a: int) -> State {
    State { l: r as usize, rule_idx: a as usize, parsed: 0 }
}

/// Whether every production of the variable that state `i` at position `r`
/// waits for has been started at `r`.
pub open spec fn predicted_at<T>(g: Seq<Production<T>>, ss: Seq<Seq<State>>, r: int, i: int) -> bool {
    forall|a: int|
        0 <= a < g.len() && next_is_var(g, ss[r][i], (#[trigger] g[a]).head) ==> ss[r].contains(
            fresh_state(r, a),
        )
}

/// Whether state `i` at position `r`, if it waits for the terminal at `r`,
/// has been moved on to position `r + 1`.
pub open spec fn scanned_at<T>(
    g: Seq<Production<T>>,
    word: Seq<T>,
    ss: Seq<Seq<State>>,
    r: int,
    i: int,
) -> bool {
    r < word.len() && next_is_term(g, ss[r][i], word[r]) ==> ss[r + 1].contains(
        advance(ss[r][i]),
    )
}

/// Whether state `i` at position `r`, if it is finished and began before
/// `r`, has moved on every state that waited for its head where it began.
pub open spec fn completed_at<T>(g: Seq<Production<T>>, ss: Seq<Seq<State>>, r: int, i: int) -> bool {
    let c = ss[r][i];
    is_complete(g, c) && c.l < r ==> forall|j: int|
        0 <= j < ss[c.l as int].len() && next_is_var(
            g,
            #[trigger] ss[c.l as int][j],
            g[c.rule_idx as int].head,
        ) ==> ss[r].contains(advance(ss[c.l as int][j]))
}

/// Whether state `i` at position `r` has been worked off.
pub open spec fn closed_at<T>(
    g: Seq<Production<T>>,
    word: Seq<T>,
    ss: Seq<Seq<State>>,
    r: int,
    i: int,
) -> bool {
    predicted_at(g, ss, r, i) && scanned_at(g, word, ss, r, i) && completed_at(g, ss, r, i)
}

/// Whether every state before position `r`, and the first `i` states at
/// `r`, have been worked off.
pub open spec fn closed_upto<T>(
    g: Seq<Production<T>>,
    word: Seq<T>,
    ss: Seq<Seq<State>>,
    r: int,
    i: int,
) -> bool {
    forall|q: int, k: int|
        0 <= q < ss.len() && 0 <= k < ss[q].len() && (q < r || (q == r && k < i))
            ==> #[trigger] closed_at(g, word, ss, q, k)
}

/// Whether the finished state `a` at position `q`, if it began at `q`, has
/// moved on the state `b` at `q`, if that waits for its head.
pub open spec fn zero_closed<T>(g: Seq<Production<T>>, ss: Seq<Seq<State>>, q: int, a: int, b: int) -> bool {
    is_complete(g, ss[q][a]) && ss[q][a].l == q && next_is_var(
        g,
        ss[q][b],
        g[ss[q][a].rule_idx as int].head,
    ) ==> ss[q].contains(advance(ss[q][b]))
}

/// Whether, before position `r` and among the first `i` states at `r`,
/// every finished state that began where it stands has moved on every
/// state that waits for its head there.
pub open spec fn zero_closed_upto<T>(g: Seq<Production<T>>, ss: Seq<Seq<State>>, r: int, i: int) -> bool {
    forall|q: int, a: int, b: int|
        0 <= q < ss.len() && 0 <= a < ss[q].len() && 0 <= b < ss[q].len() && (q < r || (q == r
            && a < i && b < i)) ==> #[trigger] zero_closed(g, ss, q, a, b)
}

/// Whether the finished state `i` at position `r` has moved on every state
/// that waits for its head where it began.
pub open spec fn finished_at<T>(g: Seq<Production<T>>, ss: Seq<Seq<State>>, r: int, i: int) -> bool {
    let c = ss[r][i];
    is_complete(g, c) ==> forall|j: int|
        0 <= j < ss[c.l as int].len() && next_is_var(
            g,
            #[trigger] ss[c.l as int][j],
            g[c.rule_idx as int].head,
        ) ==> ss[r].contains(advance(ss[c.l as int][j]))
}

/// Whether state `i` at position `r` has a reason to begin there: it is a
/// rule of the variable `start` at position 0, or a rule of a variable
/// that an earlier state at `r` waits for.
pub open spec fn justified<T>(g: Seq<Production<T>>, ss: Seq<Seq<State>>, r: int, i: int, start: int) -> bool {
    ||| (r == 0 && g[ss[r][i].rule_idx as int].head == start)
    ||| exists|j: int|
        0 <= j < i && next_is_var(g, #[trigger] ss[r][j], g[ss[r][i].rule_idx as int].head)
}

/// Whether every state whose parent is `Start` has a reason to begin where
/// it stands.
pub open spec fn starts_ok<T>(
    g: Seq<Production<T>>,
    ss: Seq<Seq<State>>,
    ps: Seq<Seq<Parent>>,
    start: int,
) -> bool {
    forall|r: int, i: int|
        0 <= r < ss.len() && 0 <= i < ss[r].len() && ps[r][i] is Start ==> #[trigger] justified(
            g,
            ss,
            r,
            i,
            start,
        )
}

/// Whether the chart is in order and none of its states began without a
/// reason.
pub open spec fn chart_good<T>(
    g: Seq<Production<T>>,
    word: Seq<T>,
    ss: Seq<Seq<State>>,
    ps: Seq<Seq<Parent>>,
    start: int,
) -> bool {
    chart_ok(g, word, ss, ps) && starts_ok(g, ss, ps, start)
}

/// Whether the first position begins with the rules of the variable
/// `start`, in their order.
pub open spec fn seeds_first<T>(g: Seq<Production<T>>, ss: Seq<Seq<State>>, start: int) -> bool {
    &&& alternatives(g, start).len() <= ss[0].len()
    &&& forall|m: int|
        0 <= m < alternatives(g, start).len() ==> #[trigger] ss[0][m] == fresh_state(
            0,
            alternatives(g, start)[m] as int,
        )
}

/// A new state with a reason to begin, or with another parent than
/// `Start`, leaves no state without a reason.
pub proof fn lemma_push_keeps_starts<T>(
    g: Seq<Production<T>>,
    word: Seq<T>,
    ss: Seq<Seq<State>>,
    ps: Seq<Seq<Parent>>,
    start: int,
    r: int,
    st: State,
    p: Parent,
)
    requires
        chart_ok(g, word, ss, ps),
        starts_ok(g, ss, ps, start),
        0 <= r < ss.len(),
        p is Start ==> justified(g, with_state(ss, r, st), r, ss[r].len() as int, start),
    ensures
        starts_ok(g, with_state(ss, r, st), with_link(ps, r, p), start),
{
    let ss2 = with_state(ss, r, st);
    let ps2 = with_link(ps, r, p);
    assert forall|q: int, i: int|
        0 <= q < ss2.len() && 0 <= i < ss2[q].len() && ps2[q][i] is Start implies #[trigger] justified(
        g,
        ss2,
        q,
        i,
        start,
    ) by {
        if q == r && i == ss[r].len() {
        } else {
            assert(ss2[q][i] == ss[q][i]);
            assert(ps2[q][i] == ps[q][i]);
            assert(justified(g, ss, q, i, start));
            if !(q == 0 && g[ss[q][i].rule_idx as int].head == start) {
                let j = choose|j: int|
                    0 <= j < i && next_is_var(g, #[trigger] ss[q][j], g[ss[q][i].rule_idx as int].head);
                assert(ss2[q][j] == ss[q][j]);
            }
        }
    }
}

/// What has been moved on stays moved on when the chart grows from
/// position `r` on.
pub proof fn lemma_zero_closed_extends<T>(
    g: Seq<Production<T>>,
    ss1: Seq<Seq<State>>,
    ss2: Seq<Seq<State>>,
    r: int,
    i: int,
)
    requires
        zero_closed_upto(g, ss1, r, i),
        extends(ss1, ss2, r),
        0 <= r < ss1.len(),
        0 <= i <= ss1[r].len(),
    ensures
        zero_closed_upto(g, ss2, r, i),
{
    assert forall|q: int, a: int, b: int|
        0 <= q < ss2.len() && 0 <= a < ss2[q].len() && 0 <= b < ss2[q].len() && (q < r || (q == r
            && a < i && b < i)) implies #[trigger] zero_closed(g, ss2, q, a, b) by {
        if q < r {
            assert(ss2[q] == ss1[q]);
        }
        assert(ss1[q].len() <= ss2[q].len());
        assert(ss2[q][a] == ss1[q][a]);
        assert(ss2[q][b] == ss1[q][b]);
        assert(zero_closed(g, ss1, q, a, b));
        if ss1[q].contains(advance(ss1[q][b])) {
            lemma_extends_contains(ss1, ss2, r, q, advance(ss1[q][b]));
        }
    }
}

/// The indices of the productions of a variable rise.
pub proof fn lemma_alternatives_rise<T>(g: Seq<Production<T>>, v: int)
    requires
        g.len() <= usize::MAX,
    ensures
        forall|a: int, b: int|
            0 <= a < b < alternatives(g, v).len() ==> alternatives(g, v)[a] < alternatives(g, v)[b],
    decreases g.len(),
{
    if g.len() > 0 {
        let h = g.drop_last();
        lemma_alternatives_rise(h, v);
        lemma_alternatives(h, v);
        assert forall|a: int, b: int| 0 <= a < b < alternatives(g, v).len() implies alternatives(
            g,
            v,
        )[a] < alternatives(g, v)[b] by {
            if b < alternatives(h, v).len() {
                assert(alternatives(g, v)[a] == alternatives(h, v)[a]);
                assert(alternatives(g, v)[b] == alternatives(h, v)[b]);
            } else {
                assert(alternatives(g, v)[a] == alternatives(h, v)[a]);
                assert(alternatives(h, v)[a] < h.len());
            }
        }
    }
}

/// Whether every production of the variable `start` has been started at
/// position 0.
pub open spec fn seeded<T>(g: Seq<Production<T>>, ss: Seq<Seq<State>>, start: int) -> bool {
    forall|a: int|
        0 <= a < g.len() && (#[trigger] g[a]).head == start ==> ss[0].contains(fresh_state(0, a))
}

/// Whether `ss2` is `ss1` with more states at the end of the positions from
/// `r` on.
pub open spec fn extends(ss1: Seq<Seq<State>>, ss2: Seq<Seq<State>>, r: int) -> bool {
    &&& ss2.len() == ss1.len()
    &&& forall|q: int| 0 <= q < ss1.len() && q < r ==> (#[trigger] ss2[q]) == ss1[q]
    &&& forall|q: int| 0 <= q < ss1.len() ==> ss1[q].len() <= (#[trigger] ss2[q]).len()
    &&& forall|q: int, k: int|
        0 <= q < ss1.len() && 0 <= k < ss1[q].len() ==> (#[trigger] ss2[q][k]) == ss1[q][k]
}

/// Extending twice is extending.
pub proof fn lemma_extends_trans(
    ss1: Seq<Seq<State>>,
    ss2: Seq<Seq<State>>,
    ss3: Seq<Seq<State>>,
    r: int,
    r2: int,
)
    requires
        extends(ss1, ss2, r),
        extends(ss2, ss3, r2),
        r <= r2,
    ensures
        extends(ss1, ss3, r),
{
    assert forall|q: int, k: int|
        0 <= q < ss1.len() && 0 <= k < ss1[q].len() implies (#[trigger] ss3[q][k])
        == ss1[q][k] by {
        assert(ss1[q].len() <= ss2[q].len());
        assert(ss2[q][k] == ss1[q][k]);
        assert(ss3[q][k] == ss2[q][k]);
    }
    assert forall|q: int| 0 <= q < ss1.len() implies ss1[q].len() <= (#[trigger] ss3[q]).len() by {
        assert(ss1[q].len() <= ss2[q].len());
    }
    assert forall|q: int| 0 <= q < ss1.len() && q < r implies (#[trigger] ss3[q]) == ss1[q] by {
        assert(ss2[q] == ss1[q]);
    }
}

/// A state that is in the chart stays in it.
pub proof fn lemma_extends_contains(
    ss1: Seq<Seq<State>>,
    ss2: Seq<Seq<State>>,
    r: int,
    q: int,
    st: State,
)
    requires
        extends(ss1, ss2, r),
        0 <= q < ss1.len(),
        ss1[q].contains(st),
    ensures
        ss2[q].contains(st),
{
    let k = choose|k: int| 0 <= k < ss1[q].len() && ss1[q][k] == st;
    assert(ss1[q].len() <= ss2[q].len());
    assert(ss2[q][k] == st);
}

/// What has been worked off stays worked off when the chart grows from
/// position `r` on.
pub proof fn lemma_closed_extends<T>(
    g: Seq<Production<T>>,
    word: Seq<T>,
    ss1: Seq<Seq<State>>,
    ss2: Seq<Seq<State>>,
    r: int,
    i: int,
)
    requires
        ss1.len() == word.len() + 1,
        closed_upto(g, word, ss1, r, i),
        extends(ss1, ss2, r),
        0 <= r < ss1.len(),
        0 <= i <= ss1[r].len(),
    ensures
        closed_upto(g, word, ss2, r, i),
{
    assert forall|q: int, k: int|
        0 <= q < ss2.len() && 0 <= k < ss2[q].len() && (q < r || (q == r && k < i))
        implies #[trigger] closed_at(g, word, ss2, q, k) by {
        if q < r {
            assert(ss2[q] == ss1[q]);
        }
        assert(ss1[q].len() <= ss2[q].len());
        assert(ss2[q][k] == ss1[q][k]);
        assert(closed_at(g, word, ss1, q, k));
        let st = ss1[q][k];
        assert forall|a: int|
            0 <= a < g.len() && next_is_var(g, st, (#[trigger] g[a]).head) implies ss2[q].contains(
            fresh_state(q, a),
        ) by {
            lemma_extends_contains(ss1, ss2, r, q, fresh_state(q, a));
        }
        if q < word.len() && next_is_term(g, st, word[q]) {
            lemma_extends_contains(ss1, ss2, r, q + 1, advance(st));
        }
        if is_complete(g, st) && st.l < q {
            assert(ss2[st.l as int] == ss1[st.l as int]);
            assert forall|j: int|
                0 <= j < ss2[st.l as int].len() && next_is_var(
                    g,
                    #[trigger] ss2[st.l as int][j],
                    g[st.rule_idx as int].head,
                ) implies ss2[q].contains(advance(ss2[st.l as int][j])) by {
                lemma_extends_contains(ss1, ss2, r, q, advance(ss1[st.l as int][j]));
            }
        }
    }
}

/// The longest body among the productions of `g`.
pub open spec fn max_body<T>(g: Seq<Production<T>>) -> nat
    decreases g.len(),
{
    if g.len() == 0 {
        0
    } else if g.last().body.len() > max_body(g.drop_last()) {
        g.last().body.len()
    } else {
        max_body(g.drop_last())
    }
}

/// No body is longer than the longest.
pub proof fn lemma_max_body<T>(g: Seq<Production<T>>, a: int)
    requires
        0 <= a < g.len(),
    ensures
        g[a].body.len() <= max_body(g),
    decreases g.len(),
{
    if a < g.len() - 1 {
        lemma_max_body(g.drop_last(), a);
    }
}

/// A number that no position `r` of a chart for `g` has more states than.
pub open spec fn row_bound<T>(g: Seq<Production<T>>, r: int) -> int {
    (r + 1) * g.len() * (max_body(g) + 1)
}

/// The number that stands for a state.
pub open spec fn state_code<T>(g: Seq<Production<T>>, st: State) -> int {
    crate::counting::triple_code(
        st.l as int,
        st.rule_idx as int,
        st.parsed as int,
        g.len() as int,
        (max_body(g) + 1) as int,
    )
}

/// A position of a chart holds no more states than `row_bound` says.
pub proof fn lemma_row_bounded<T>(
    g: Seq<Production<T>>,
    word: Seq<T>,
    ss: Seq<Seq<State>>,
    ps: Seq<Seq<Parent>>,
    r: int,
)
    requires
        chart_ok(g, word, ss, ps),
        0 <= r < ss.len(),
    ensures
        ss[r].len() <= row_bound(g, r),
{
    let row = ss[r];
    let codes = Seq::new(row.len(), |i: int| state_code(g, row[i]));
    let nb = g.len() as int;
    let nc = (max_body(g) + 1) as int;
    assert forall|i: int| 0 <= i < codes.len() implies 0 <= #[trigger] codes[i] < row_bound(
        g,
        r,
    ) by {
        assert(slot_ok(g, word, ss, ps, r, i));
        lemma_max_body(g, row[i].rule_idx as int);
        crate::counting::lemma_triple_code(
            row[i].l as int,
            row[i].rule_idx as int,
            row[i].parsed as int,
            r + 1,
            nb,
            nc,
        );
    }
    assert forall|i: int, j: int|
        0 <= i < codes.len() && 0 <= j < codes.len() && i != j implies codes[i] != codes[j] by {
        assert(slot_ok(g, word, ss, ps, r, i));
        assert(slot_ok(g, word, ss, ps, r, j));
        lemma_max_body(g, row[i].rule_idx as int);
        lemma_max_body(g, row[j].rule_idx as int);
        crate::counting::lemma_triple_code(
            row[i].l as int,
            row[i].rule_idx as int,
            row[i].parsed as int,
            r + 1,
            nb,
            nc,
        );
        crate::counting::lemma_triple_code(
            row[j].l as int,
            row[j].rule_idx as int,
            row[j].parsed as int,
            r + 1,
            nb,
            nc,
        );
        if codes[i] == codes[j] {
            assert(row[i] == row[j]);
        }
    }
    assert(0 <= row_bound(g, r)) by (nonlinear_arith)
        requires
            0 <= r,
            0 <= nb,
            0 <= nc,
            row_bound(g, r) == (r + 1) * nb * nc,
    ;
    crate::counting::lemma_distinct_codes_bounded(codes, row_bound(g, r));
}

/// What `alternatives` holds: the indices of the productions of `v`.
pub proof fn lemma_alternatives<T>(g: Seq<Production<T>>, v: int)
    requires
        g.len() <= usize::MAX,
    ensures
        forall|k: int|
            0 <= k < alternatives(g, v).len() ==> (#[trigger] alternatives(g, v)[k]) < g.len()
                && g[alternatives(g, v)[k] as int].head == v,
        forall|a: int|
            0 <= a < g.len() && (#[trigger] g[a]).head == v ==> alternatives(g, v).contains(
                a as usize,
            ),
    decreases g.len(),
{
    if g.len() > 0 {
        let h = g.drop_last();
        lemma_alternatives(h, v);
        assert forall|a: int| 0 <= a < g.len() && (#[trigger] g[a]).head == v implies alternatives(
            g,
            v,
        ).contains(a as usize) by {
            let au = a as usize;
            if a < g.len() - 1 {
                assert(h[a].head == v);
                assert(alternatives(h, v).contains(au));
                let k = choose|k: int|
                    0 <= k < alternatives(h, v).len() && alternatives(h, v)[k] == au;
                assert(alternatives(g, v)[k] == au);
            } else {
                assert(alternatives(g, v)[alternatives(h, v).len() as int] == au);
            }
        }
        assert forall|k: int| 0 <= k < alternatives(g, v).len() implies (#[trigger] alternatives(
            g,
            v,
        )[k]) < g.len() && g[alternatives(g, v)[k] as int].head == v by {
            if k < alternatives(h, v).len() {
                let a = alternatives(h, v)[k];
                assert(alternatives(g, v)[k] == a);
                assert(a < h.len() && h[a as int].head == v);
                assert(g[a as int] == h[a as int]);
            } else {
                assert(alternatives(g, v)[k] == (g.len() - 1) as usize);
            }
        }
    }
}

} // verus!
