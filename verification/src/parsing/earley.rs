//! The Earley parser: a chart of partly matched rules for each position of
//! the word.

use vstd::prelude::*;
use crate::grammar::{productions, productions_in_range, Cfg, Production, Rule, Symbol, Var};
use crate::parsing::chart::{
    advance, alternatives, chart_good, chart_ok, closed_upto, extends, finished_at,
    fresh_state, justified, lemma_alternatives_rise, lemma_push_keeps_starts,
    lemma_zero_closed_extends, seeds_first, zero_closed, zero_closed_upto,
    is_complete, item_ok, lemma_alternatives, lemma_closed_extends, lemma_extends_trans,
    lemma_push_keeps_chart, lemma_row_bounded, link_ok, next_is_var, row_bound, seeded, slot_ok,
    with_link, with_state, Chart, Parent, State, closed_at,
};
use crate::derivation::{derivation_of, derives, Tree};
use crate::parsing::completeness::{accepting, lemma_derivation_in_chart, machine_sized};
use crate::parsing::forest::{forest_of, lemma_forest_sound};
use crate::parsing::run::{
    blank, chart_of, complete_from, enough, predict_from, process, put, skip_from, work, work_row,
};
use crate::parsing::{ParseTree, ParsedSymbol, Parser};
use crate::term::Term;

verus! {

/// Whether `row` holds `st`.
fn row_contains(row: &Vec<State>, st: State) -> (found: bool)
    ensures
        found == row@.contains(st),
{
    let mut k: usize = 0;
    while k < row.len()
        invariant
            k <= row@.len(),
            forall|m: int| 0 <= m < k ==> row@[m] != st,
        decreases row@.len() - k,
    {
        if row[k] == st {
            return true;
        }
        k += 1;
    }
    false
}

/// Whether the state with index `k` is the first of `row` that shows that
/// `start` derives the whole word.
pub open spec fn first_accepting<T>(
    g: Seq<Production<T>>,
    start: int,
    row: Seq<State>,
    k: int,
) -> bool {
    &&& 0 <= k < row.len()
    &&& accepting(g, start, row[k])
    &&& forall|m: int| 0 <= m < k ==> !accepting(g, start, #[trigger] row[m])
}

/// The derivation that the parser returns for `word`, if it returns one:
/// that of the first state at the last position of the chart that shows
/// that `start` derives the word, read off the parents.
pub open spec fn earley_tree<T>(g: Seq<Production<T>>, word: Seq<T>, start: int) -> Option<Tree<T>> {
    let c = chart_of(g, word, start);
    let n = word.len() as int;
    if exists|k: int| first_accepting(g, start, c.ss[n], k) {
        let k = choose|k: int| first_accepting(g, start, c.ss[n], k);
        Some(Tree::Node(c.ss[n][k].rule_idx as int, forest_of(word, c.ss, c.ps, n, k)))
    } else {
        None
    }
}

/// An Earley parser for one grammar.
///
/// It accepts the words of the language and no others, and every tree that
/// it returns is a derivation of the word.
pub struct EarleyParser<T> {
    pub start_var: Var,
    pub var_names: Vec<String>,
    pub rules: Vec<Rule<T>>,
    pub rules_by_var: Vec<Vec<usize>>,
}

impl<T: Term> EarleyParser<T> {
    /// The productions of the grammar that is parsed.
    pub open spec fn productions(&self) -> Seq<Production<T>> {
        productions(self.rules@)
    }

    /// Whether the parser holds a well-formed grammar and, for each variable,
    /// the indices of its rules.
    pub open spec fn wf(&self) -> bool {
        &&& self.rules_by_var@.len() == self.var_names@.len()
        &&& self.start_var.0 < self.rules_by_var@.len()
        &&& productions_in_range(self.productions(), self.rules_by_var@.len() as int)
        &&& forall|v: int|
            0 <= v < self.rules_by_var@.len() ==> (#[trigger] self.rules_by_var@[v])@
                == alternatives(self.productions(), v)
    }

    /// The parser for `cfg`.
    pub fn of(cfg: Cfg<T>) -> (parser: Self)
        requires
            cfg.wf(),
        ensures
            parser.wf(),
            parser.start_var == cfg.start_var,
            parser.var_names == cfg.var_names,
            parser.rules == cfg.rules,
    {
        let n_vars = cfg.n_vars();
        let Cfg { start_var, var_names, rules } = cfg;
        let mut rules_by_var: Vec<Vec<usize>> = Vec::new();
        let mut v: usize = 0;
        while v < n_vars
            invariant
                v <= n_vars,
                rules_by_var@.len() == v,
                forall|u: int| 0 <= u < v ==> (#[trigger] rules_by_var@[u])@.len() == 0,
            decreases n_vars - v,
        {
            rules_by_var.push(Vec::new());
            v += 1;
        }
        let ghost g = productions(rules@);
        let mut i: usize = 0;
        while i < rules.len()
            invariant
                i <= rules@.len(),
                g == productions(rules@),
                rules_by_var@.len() == n_vars,
                productions_in_range(g, n_vars as int),
                forall|u: int|
                    0 <= u < n_vars ==> (#[trigger] rules_by_var@[u])@ == alternatives(
                        g.take(i as int),
                        u,
                    ),
            decreases rules@.len() - i,
        {
            let head = rules[i].head.0;
            assert(g[i as int].head == head);
            rules_by_var[head].push(i);
            proof {
                assert(g.take(i + 1).drop_last() == g.take(i as int));
            }
            i += 1;
        }
        proof {
            assert(g.take(i as int) == g);
        }
        Self { start_var, var_names, rules, rules_by_var }
    }

    /// Puts `st` at position `r` with parent `p`, unless it stands there.
    fn add_state(&self, chart: &mut Chart, word: &Vec<T>, r: usize, st: State, p: Parent)
        requires
            chart_good(self.productions(), word@, old(chart).rows(), old(chart).links(), self.start_var.0 as int),
            r < old(chart).states@.len(),
            item_ok(self.productions(), r as int, st),
            link_ok(
                self.productions(),
                word@,
                with_state(old(chart).rows(), r as int, st),
                r as int,
                old(chart).rows()[r as int].len() as int,
                p,
            ),
            p is Start ==> justified(
                self.productions(),
                with_state(old(chart).rows(), r as int, st),
                r as int,
                old(chart).rows()[r as int].len() as int,
                self.start_var.0 as int,
            ),
        ensures
            chart_good(self.productions(), word@, final(chart).rows(), final(chart).links(), self.start_var.0 as int),
            extends(old(chart).rows(), final(chart).rows(), r as int),
            final(chart).rows()[r as int].contains(st),
            final(chart).sheet() == put(old(chart).sheet(), r as int, st, p),
    {
        let ghost rows0 = chart.rows();
        let ghost links0 = chart.links();
        if !row_contains(&chart.states[r], st) {
            chart.states[r].push(st);
            chart.parents[r].push(p);
            proof {
                assert(chart.rows() =~= with_state(rows0, r as int, st));
                assert(chart.links() =~= with_link(links0, r as int, p));
                lemma_push_keeps_chart(self.productions(), word@, rows0, links0, r as int, st, p);
                lemma_push_keeps_starts(
                    self.productions(),
                    word@,
                    rows0,
                    links0,
                    self.start_var.0 as int,
                    r as int,
                    st,
                    p,
                );
                assert(chart.rows()[r as int][rows0[r as int].len() as int] == st);
            }
        }
    }

    /// Moves on, at position `r`, every state that waited for the head of
    /// the finished state with index `i`.
    fn complete(&self, chart: &mut Chart, word: &Vec<T>, r: usize, i: usize)
        requires
            self.wf(),
            chart_good(self.productions(), word@, old(chart).rows(), old(chart).links(), self.start_var.0 as int),
            r < old(chart).states@.len(),
            i < old(chart).rows()[r as int].len(),
            is_complete(self.productions(), old(chart).rows()[r as int][i as int]),
        ensures
            chart_good(self.productions(), word@, final(chart).rows(), final(chart).links(), self.start_var.0 as int),
            extends(old(chart).rows(), final(chart).rows(), r as int),
            finished_at(self.productions(), final(chart).rows(), r as int, i as int),
            final(chart).sheet() == complete_from(
                self.productions(),
                old(chart).sheet(),
                r as int,
                i as int,
                0,
                enough(self.productions(), old(chart).rows()[r as int][i as int].l as int),
            ),
    {
        let ghost g = self.productions();
        let ghost rows0 = chart.rows();
        let c = chart.states[r][i];
        let ghost fuel = enough(g, c.l as int);
        let ghost target = complete_from(g, chart.sheet(), r as int, i as int, 0, fuel);
        proof {
            assert(slot_ok(g, word@, chart.rows(), chart.links(), r as int, i as int));
        }
        let head = self.rules[c.rule_idx].head;
        let l = c.l;
        let mut j: usize = 0;
        while j < chart.states[l].len()
            invariant
                self.wf(),
                g == self.productions(),
                chart_good(g, word@, chart.rows(), chart.links(), self.start_var.0 as int),
                extends(rows0, chart.rows(), r as int),
                r < chart.states@.len(),
                i < chart.rows()[r as int].len(),
                chart.rows()[r as int][i as int] == c,
                is_complete(g, c),
                item_ok(g, r as int, c),
                l == c.l,
                head.0 == g[c.rule_idx as int].head,
                j <= chart.rows()[l as int].len(),
                fuel == enough(g, l as int),
                j <= fuel,
                target == complete_from(g, chart.sheet(), r as int, i as int, j as int, (fuel - j) as nat),
                forall|m: int|
                    0 <= m < j && next_is_var(g, #[trigger] chart.rows()[l as int][m], head.0 as int)
                        ==> chart.rows()[r as int].contains(advance(chart.rows()[l as int][m])),
            decreases row_bound(g, l as int) - j,
        {
            proof {
                lemma_row_bounded(g, word@, chart.rows(), chart.links(), l as int);
                assert(slot_ok(g, word@, chart.rows(), chart.links(), l as int, j as int));
            }
            let ghost before = chart.rows();
            let ghost sheet1 = chart.sheet();
            let w = chart.states[l][j];
            let wbody = &self.rules[w.rule_idx].body;
            if w.parsed < wbody.len() {
                match &wbody[w.parsed] {
                    Symbol::Var(v) => {
                        if v.0 == head.0 {
                            let st = State { l: w.l, rule_idx: w.rule_idx, parsed: w.parsed + 1 };
                            proof {
                                let ss2 = with_state(before, r as int, st);
                                assert(ss2[r as int][i as int] == c);
                                assert(ss2[l as int][j as int] == w);
                            }
                            self.add_state(chart, word, r, st, Parent::Complete(i, j));
                        }
                    },
                    Symbol::Term(_) => {},
                }
            }
            proof {
                let w1 = sheet1.ss[l as int][j as int];
                assert(advance(w1) == State {
                    l: w1.l,
                    rule_idx: w1.rule_idx,
                    parsed: (w1.parsed + 1) as usize,
                });
                assert(chart.sheet() == if next_is_var(g, w1, g[c.rule_idx as int].head) {
                    put(sheet1, r as int, advance(w1), Parent::Complete(i, j))
                } else {
                    sheet1
                });
                assert(target == complete_from(
                    g,
                    chart.sheet(),
                    r as int,
                    i as int,
                    j + 1,
                    (fuel - j - 1) as nat,
                ));
                lemma_extends_trans(rows0, before, chart.rows(), r as int, r as int);
                assert(before[r as int].len() <= chart.rows()[r as int].len());
                assert(chart.rows()[r as int][i as int] == before[r as int][i as int]);
                assert(before[l as int].len() <= chart.rows()[l as int].len());
                assert forall|m: int|
                    0 <= m < j + 1 && next_is_var(
                        g,
                        #[trigger] chart.rows()[l as int][m],
                        head.0 as int,
                    ) implies chart.rows()[r as int].contains(
                    advance(chart.rows()[l as int][m]),
                ) by {
                    assert(chart.rows()[l as int][m] == before[l as int][m]);
                    if m < j {
                        crate::parsing::chart::lemma_extends_contains(
                            before,
                            chart.rows(),
                            r as int,
                            r as int,
                            advance(before[l as int][m]),
                        );
                    }
                }
            }
            j += 1;
        }
    }

    /// Starts every rule of the variable `v`, for which state `i` waits, at
    /// position `r`.
    fn predict(&self, chart: &mut Chart, word: &Vec<T>, r: usize, i: usize, v: Var)
        requires
            self.wf(),
            chart_good(self.productions(), word@, old(chart).rows(), old(chart).links(), self.start_var.0 as int),
            r < old(chart).states@.len(),
            v.0 < self.rules_by_var@.len(),
            i < old(chart).rows()[r as int].len(),
            next_is_var(self.productions(), old(chart).rows()[r as int][i as int], v.0 as int),
        ensures
            chart_good(self.productions(), word@, final(chart).rows(), final(chart).links(), self.start_var.0 as int),
            extends(old(chart).rows(), final(chart).rows(), r as int),
            forall|a: int|
                0 <= a < self.productions().len() && (#[trigger] self.productions()[a]).head
                    == v.0 ==> final(chart).rows()[r as int].contains(fresh_state(r as int, a)),
            final(chart).sheet() == predict_from(
                old(chart).sheet(),
                r as int,
                alternatives(self.productions(), v.0 as int),
                0,
            ),
    {
        let ghost g = self.productions();
        let ghost rows0 = chart.rows();
        let ghost alts = alternatives(g, v.0 as int);
        let ghost target = predict_from(chart.sheet(), r as int, alts, 0);
        let ghost waiting = chart.rows()[r as int][i as int];
        let n_rules = self.rules.len();
        proof {
            assert(g.len() == n_rules);
            lemma_alternatives(g, v.0 as int);
            assert(self.rules_by_var@[v.0 as int]@ == alts);
        }
        let n_alts = self.rules_by_var[v.0].len();
        let mut k: usize = 0;
        while k < n_alts
            invariant
                self.wf(),
                g == self.productions(),
                alts == alternatives(g, v.0 as int),
                self.rules_by_var@[v.0 as int]@ == alts,
                v.0 < self.rules_by_var@.len(),
                n_alts == alts.len(),
                chart_good(g, word@, chart.rows(), chart.links(), self.start_var.0 as int),
                extends(rows0, chart.rows(), r as int),
                r < chart.states@.len(),
                i < chart.rows()[r as int].len(),
                chart.rows()[r as int][i as int] == waiting,
                next_is_var(g, waiting, v.0 as int),
                target == predict_from(chart.sheet(), r as int, alts, k as int),
                k <= n_alts,
                forall|m: int|
                    0 <= m < alts.len() ==> (#[trigger] alts[m]) < g.len() && g[alts[m] as int].head
                        == v.0,
                forall|m: int|
                    0 <= m < k ==> chart.rows()[r as int].contains(
                        fresh_state(r as int, #[trigger] alts[m] as int),
                    ),
            decreases n_alts - k,
        {
            let ghost before = chart.rows();
            let a = self.rules_by_var[v.0][k];
            assert(a == alts[k as int]);
            let st = State { l: r, rule_idx: a, parsed: 0 };
            proof {
                let ss2 = with_state(before, r as int, st);
                assert(ss2[r as int][i as int] == waiting);
                assert(g[alts[k as int] as int].head == v.0);
                assert(justified(g, ss2, r as int, before[r as int].len() as int, self.start_var.0 as int));
            }
            self.add_state(chart, word, r, st, Parent::Start);
            proof {
                lemma_extends_trans(rows0, before, chart.rows(), r as int, r as int);
                assert(before[r as int].len() <= chart.rows()[r as int].len());
                assert(chart.rows()[r as int][i as int] == before[r as int][i as int]);
                assert forall|m: int| 0 <= m < k + 1 implies chart.rows()[r as int].contains(
                    fresh_state(r as int, #[trigger] alts[m] as int),
                ) by {
                    if m < k {
                        crate::parsing::chart::lemma_extends_contains(
                            before,
                            chart.rows(),
                            r as int,
                            r as int,
                            fresh_state(r as int, alts[m] as int),
                        );
                    }
                }
            }
            k += 1;
        }
        proof {
            assert forall|a: int|
                0 <= a < g.len() && (#[trigger] g[a]).head == v.0 implies chart.rows()[r as int].contains(
                fresh_state(r as int, a),
            ) by {
                assert(alts.contains(a as usize));
                let m = choose|m: int| 0 <= m < alts.len() && alts[m] == a as usize;
                assert(chart.rows()[r as int].contains(fresh_state(r as int, alts[m] as int)));
            }
        }
    }

    /// Moves state `i` at position `r`, which waits for the variable `v`, on
    /// over every finished rule of `v` that began at `r` and stands there.
    fn skip_finished(&self, chart: &mut Chart, word: &Vec<T>, r: usize, i: usize, v: Var)
        requires
            self.wf(),
            chart_good(self.productions(), word@, old(chart).rows(), old(chart).links(), self.start_var.0 as int),
            r < old(chart).states@.len(),
            i < old(chart).rows()[r as int].len(),
            next_is_var(self.productions(), old(chart).rows()[r as int][i as int], v.0 as int),
        ensures
            chart_good(self.productions(), word@, final(chart).rows(), final(chart).links(), self.start_var.0 as int),
            extends(old(chart).rows(), final(chart).rows(), r as int),
            forall|k: int|
                0 <= k < final(chart).rows()[r as int].len() ==> #[trigger] zero_closed(
                    self.productions(),
                    final(chart).rows(),
                    r as int,
                    k,
                    i as int,
                ),
            final(chart).sheet() == skip_from(
                self.productions(),
                old(chart).sheet(),
                r as int,
                i as int,
                v.0 as int,
                0,
                enough(self.productions(), r as int),
            ),
    {
        let ghost g = self.productions();
        let ghost rows0 = chart.rows();
        let ghost fuel = enough(g, r as int);
        let ghost target = skip_from(g, chart.sheet(), r as int, i as int, v.0 as int, 0, fuel);
        let st = chart.states[r][i];
        proof {
            assert(slot_ok(g, word@, chart.rows(), chart.links(), r as int, i as int));
        }
        assert(st.parsed < self.rules[st.rule_idx as int].body.len());
        let next = State { l: st.l, rule_idx: st.rule_idx, parsed: st.parsed + 1 };
        let mut k: usize = 0;
        while k < chart.states[r].len()
            invariant
                self.wf(),
                g == self.productions(),
                chart_good(g, word@, chart.rows(), chart.links(), self.start_var.0 as int),
                extends(rows0, chart.rows(), r as int),
                r < chart.states@.len(),
                i < chart.rows()[r as int].len(),
                chart.rows()[r as int][i as int] == st,
                next_is_var(g, st, v.0 as int),
                item_ok(g, r as int, st),
                next == advance(st),
                next.parsed == st.parsed + 1,
                k <= chart.rows()[r as int].len(),
                fuel == enough(g, r as int),
                k <= fuel,
                target == skip_from(
                    g,
                    chart.sheet(),
                    r as int,
                    i as int,
                    v.0 as int,
                    k as int,
                    (fuel - k) as nat,
                ),
                forall|m: int| 0 <= m < k ==> #[trigger] zero_closed(g, chart.rows(), r as int, m, i as int),
            decreases row_bound(g, r as int) - k,
        {
            proof {
                lemma_row_bounded(g, word@, chart.rows(), chart.links(), r as int);
                assert(slot_ok(g, word@, chart.rows(), chart.links(), r as int, k as int));
            }
            let ghost before = chart.rows();
            let ghost sheet1 = chart.sheet();
            let c = chart.states[r][k];
            let rule = &self.rules[c.rule_idx];
            if c.l == r && c.parsed == rule.body.len() && rule.head.0 == v.0 {
                proof {
                    let ss2 = with_state(before, r as int, next);
                    assert(ss2[r as int][k as int] == c);
                    assert(ss2[r as int][i as int] == st);
                }
                self.add_state(chart, word, r, next, Parent::Complete(k, i));
            }
            proof {
                let after = chart.rows();
                assert(chart.sheet() == if c.l == r && is_complete(g, c) && g[c.rule_idx as int].head
                    == v.0 {
                    put(sheet1, r as int, advance(st), Parent::Complete(k, i))
                } else {
                    sheet1
                });
                assert(target == skip_from(
                    g,
                    chart.sheet(),
                    r as int,
                    i as int,
                    v.0 as int,
                    k + 1,
                    (fuel - k - 1) as nat,
                ));
                lemma_extends_trans(rows0, before, after, r as int, r as int);
                assert(before[r as int].len() <= after[r as int].len());
                assert(after[r as int][i as int] == before[r as int][i as int]);
                assert forall|m: int| 0 <= m < k + 1 implies #[trigger] zero_closed(
                    g,
                    after,
                    r as int,
                    m,
                    i as int,
                ) by {
                    assert(after[r as int][m] == before[r as int][m]);
                    if m < k {
                        assert(zero_closed(g, before, r as int, m, i as int));
                        if before[r as int].contains(advance(st)) {
                            crate::parsing::chart::lemma_extends_contains(
                                before,
                                after,
                                r as int,
                                r as int,
                                advance(st),
                            );
                        }
                    }
                }
            }
            k += 1;
        }
    }

    /// Builds the chart for `word`.
    ///
    /// The first position begins with the rules of the start variable. At
    /// each position the states are worked off in their order: a finished
    /// state moves on the states that waited for its head where it began; a
    /// state that waits for a variable starts the rules of that variable
    /// and is moved on over those of them that are finished already and
    /// began at the same position; a state that waits for the terminal at
    /// the position is moved on to the next position.
    pub fn attempt_parse(&self, word: &Vec<T>) -> (chart: Chart)
        requires
            self.wf(),
            word@.len() < usize::MAX,
        ensures
            chart_good(self.productions(), word@, chart.rows(), chart.links(), self.start_var.0 as int),
            seeds_first(self.productions(), chart.rows(), self.start_var.0 as int),
            seeded(self.productions(), chart.rows(), self.start_var.0 as int),
            closed_upto(self.productions(), word@, chart.rows(), word@.len() as int + 1, 0),
            zero_closed_upto(self.productions(), chart.rows(), word@.len() as int + 1, 0),
            chart.sheet() == chart_of(self.productions(), word@, self.start_var.0 as int),
    {
        let ghost g = self.productions();
        let ghost start = self.start_var.0 as int;
        let n = word.len();
        let mut chart = Chart { states: Vec::new(), parents: Vec::new() };
        let mut q: usize = 0;
        while q <= n
            invariant
                n < usize::MAX,
                q <= n + 1,
                chart.states@.len() == q,
                chart.parents@.len() == q,
                forall|u: int| 0 <= u < q ==> (#[trigger] chart.states@[u])@.len() == 0,
                forall|u: int| 0 <= u < q ==> (#[trigger] chart.parents@[u])@.len() == 0,
            decreases n + 1 - q,
        {
            chart.states.push(Vec::new());
            chart.parents.push(Vec::new());
            q += 1;
        }
        let ghost alts = alternatives(g, start);
        let n_rules = self.rules.len();
        let ghost seeds = predict_from(blank(n as nat), 0, alts, 0);
        proof {
            assert forall|u: int| 0 <= u < n + 1 implies #[trigger] chart.rows()[u]
                =~= Seq::<State>::empty() by {
                assert(chart.states@[u]@.len() == 0);
            }
            assert forall|u: int| 0 <= u < n + 1 implies #[trigger] chart.links()[u]
                =~= Seq::<Parent>::empty() by {
                assert(chart.parents@[u]@.len() == 0);
            }
            assert(chart.rows() =~= blank(n as nat).ss);
            assert(chart.links() =~= blank(n as nat).ps);
            assert(g.len() == n_rules);
            assert(chart_good(g, word@, chart.rows(), chart.links(), start));
            lemma_alternatives(g, start);
            lemma_alternatives_rise(g, start);
            assert(self.rules_by_var@[start]@ == alts);
        }
        let n_alts = self.rules_by_var[self.start_var.0].len();
        let mut k: usize = 0;
        while k < n_alts
            invariant
                self.wf(),
                g == self.productions(),
                start == self.start_var.0,
                n == word@.len(),
                alts == alternatives(g, start),
                self.rules_by_var@[start]@ == alts,
                n_alts == alts.len(),
                k <= n_alts,
                chart.states@.len() == n + 1,
                chart_good(g, word@, chart.rows(), chart.links(), start),
                forall|m: int|
                    0 <= m < alts.len() ==> (#[trigger] alts[m]) < g.len() && g[alts[m] as int].head
                        == start,
                forall|a: int, b: int| 0 <= a < b < alts.len() ==> alts[a] < alts[b],
                chart.rows()[0].len() == k,
                forall|m: int| 0 <= m < k ==> #[trigger] chart.rows()[0][m] == fresh_state(0, alts[m] as int),
                seeds == predict_from(chart.sheet(), 0, alts, k as int),
            decreases n_alts - k,
        {
            let ghost before = chart.rows();
            let a = self.rules_by_var[self.start_var.0][k];
            assert(a == alts[k as int]);
            let st = State { l: 0, rule_idx: a, parsed: 0 };
            proof {
                if before[0].contains(st) {
                    let m = choose|m: int| 0 <= m < before[0].len() && before[0][m] == st;
                    assert(before[0][m] == fresh_state(0, alts[m] as int));
                    assert(alts[m] < alts[k as int]);
                }
                let ss2 = with_state(before, 0, st);
                assert(justified(g, ss2, 0, before[0].len() as int, start));
            }
            self.add_state(&mut chart, word, 0, st, Parent::Start);
            proof {
                assert(chart.rows() == with_state(before, 0, st));
                assert(st == fresh_state(0, alts[k as int] as int));
                assert forall|m: int| 0 <= m < k + 1 implies #[trigger] chart.rows()[0][m]
                    == fresh_state(0, alts[m] as int) by {
                    if m < k {
                        assert(chart.rows()[0][m] == before[0][m]);
                    }
                }
            }
            k += 1;
        }
        proof {
            assert forall|a: int| 0 <= a < g.len() && (#[trigger] g[a]).head
                == start implies chart.rows()[0].contains(fresh_state(0, a)) by {
                assert(alts.contains(a as usize));
                let m = choose|m: int| 0 <= m < alts.len() && alts[m] == a as usize;
                assert(chart.rows()[0][m] == fresh_state(0, alts[m] as int));
            }
        }
        let ghost whole = chart_of(g, word@, start);
        let mut r: usize = 0;
        while r <= n
            invariant
                self.wf(),
                g == self.productions(),
                start == self.start_var.0,
                n == word@.len(),
                n < usize::MAX,
                r <= n + 1,
                whole == work(g, word@, chart.sheet(), r as int),
                chart_good(g, word@, chart.rows(), chart.links(), start),
                seeds_first(g, chart.rows(), start),
                seeded(g, chart.rows(), start),
                closed_upto(g, word@, chart.rows(), r as int, 0),
                zero_closed_upto(g, chart.rows(), r as int, 0),
            decreases n + 1 - r,
        {
            let ghost row_fuel = enough(g, r as int);
            let ghost row_target = work_row(g, word@, chart.sheet(), r as int, 0, row_fuel);
            let mut i: usize = 0;
            while i < chart.states[r].len()
                invariant
                    self.wf(),
                    g == self.productions(),
                    start == self.start_var.0,
                    n == word@.len(),
                    n < usize::MAX,
                    r <= n,
                    row_fuel == enough(g, r as int),
                    i <= row_fuel,
                    row_target == work_row(
                        g,
                        word@,
                        chart.sheet(),
                        r as int,
                        i as int,
                        (row_fuel - i) as nat,
                    ),
                    whole == work(g, word@, row_target, r + 1),
                    chart_good(g, word@, chart.rows(), chart.links(), start),
                    seeds_first(g, chart.rows(), start),
                    seeded(g, chart.rows(), start),
                    closed_upto(g, word@, chart.rows(), r as int, i as int),
                    zero_closed_upto(g, chart.rows(), r as int, i as int),
                    i <= chart.rows()[r as int].len(),
                decreases row_bound(g, r as int) - i,
            {
                proof {
                    lemma_row_bounded(g, word@, chart.rows(), chart.links(), r as int);
                    assert(slot_ok(g, word@, chart.rows(), chart.links(), r as int, i as int));
                }
                let ghost before = chart.rows();
                let ghost sheet1 = chart.sheet();
                let st = chart.states[r][i];
                let body = &self.rules[st.rule_idx].body;
                if st.parsed == body.len() {
                    self.complete(&mut chart, word, r, i);
                } else {
                    match &body[st.parsed] {
                        Symbol::Var(v) => {
                            self.predict(&mut chart, word, r, i, *v);
                            let ghost between = chart.rows();
                            proof {
                                assert(before[r as int].len() <= between[r as int].len());
                                assert(between[r as int][i as int] == st);
                            }
                            self.skip_finished(&mut chart, word, r, i, *v);
                            proof {
                                let after = chart.rows();
                                lemma_extends_trans(before, between, after, r as int, r as int);
                                assert forall|a: int|
                                    0 <= a < g.len() && next_is_var(
                                        g,
                                        st,
                                        (#[trigger] g[a]).head,
                                    ) implies after[r as int].contains(fresh_state(r as int, a)) by {
                                    crate::parsing::chart::lemma_extends_contains(
                                        between,
                                        after,
                                        r as int,
                                        r as int,
                                        fresh_state(r as int, a),
                                    );
                                }
                            }
                        },
                        Symbol::Term(t) => {
                            if r < n && word[r].same(t) {
                                let next = State {
                                    l: st.l,
                                    rule_idx: st.rule_idx,
                                    parsed: st.parsed + 1,
                                };
                                proof {
                                    let ss2 = with_state(before, r + 1, next);
                                    assert(ss2[r as int][i as int] == st);
                                }
                                self.add_state(&mut chart, word, r + 1, next, Parent::Scan(i));
                                proof {
                                    lemma_extends_trans(
                                        before,
                                        before,
                                        chart.rows(),
                                        r as int,
                                        r + 1,
                                    );
                                }
                            }
                        },
                    }
                }
                proof {
                    let after = chart.rows();
                    assert(g[st.rule_idx as int].body == body@);
                    assert(chart.sheet() == process(g, word@, sheet1, r as int, i as int));
                    assert(row_target == work_row(
                        g,
                        word@,
                        chart.sheet(),
                        r as int,
                        i + 1,
                        (row_fuel - i - 1) as nat,
                    ));
                    lemma_closed_extends(g, word@, before, after, r as int, i as int);
                    lemma_zero_closed_extends(g, before, after, r as int, i as int);
                    assert(before[r as int].len() <= after[r as int].len());
                    assert(after[r as int][i as int] == st);
                    assert(closed_at(g, word@, after, r as int, i as int));
                    assert forall|a: int|
                        0 <= a < g.len() && (#[trigger] g[a]).head == start implies after[0].contains(
                        fresh_state(0, a),
                    ) by {
                        crate::parsing::chart::lemma_extends_contains(
                            before,
                            after,
                            r as int,
                            0,
                            fresh_state(0, a),
                        );
                    }
                    assert(before[0].len() <= after[0].len());
                    assert forall|m: int| 0 <= m < alternatives(g, start).len() implies #[trigger] after[0][m]
                        == fresh_state(0, alternatives(g, start)[m] as int) by {
                        assert(after[0][m] == before[0][m]);
                    }
                    assert forall|q: int, a: int, b: int|
                        0 <= q < after.len() && 0 <= a < after[q].len() && 0 <= b < after[q].len() && (
                        q < r || (q == r && a < i + 1 && b < i + 1)) implies #[trigger] zero_closed(
                        g,
                        after,
                        q,
                        a,
                        b,
                    ) by {
                        if q == r && a == i {
                            if is_complete(g, st) && st.l == r {
                                assert(finished_at(g, after, r as int, i as int));
                            }
                        } else if q == r && b == i {
                        } else {
                            assert(zero_closed(g, after, q, a, b));
                        }
                    }
                }
                i += 1;
            }
            r += 1;
        }
        chart
    }

    /// The first state of `chart` at the last position that shows that the
    /// start variable derives the word.
    fn find_accepting(&self, chart: &Chart, word: &Vec<T>) -> (found: Option<usize>)
        requires
            self.wf(),
            chart_ok(self.productions(), word@, chart.rows(), chart.links()),
        ensures
            found matches Some(k) ==> k < chart.rows()[word@.len() as int].len() && accepting(
                self.productions(),
                self.start_var.0 as int,
                chart.rows()[word@.len() as int][k as int],
            ),
            found matches Some(k) ==> first_accepting(
                self.productions(),
                self.start_var.0 as int,
                chart.rows()[word@.len() as int],
                k as int,
            ),
            found is None ==> forall|k: int|
                0 <= k < chart.rows()[word@.len() as int].len() ==> !accepting(
                    self.productions(),
                    self.start_var.0 as int,
                    #[trigger] chart.rows()[word@.len() as int][k],
                ),
    {
        let ghost g = self.productions();
        let n = word.len();
        let row = &chart.states[n];
        let mut k: usize = 0;
        while k < row.len()
            invariant
                self.wf(),
                g == self.productions(),
                n == word@.len(),
                chart_ok(g, word@, chart.rows(), chart.links()),
                row@ == chart.rows()[n as int],
                k <= row@.len(),
                forall|m: int|
                    0 <= m < k ==> !accepting(g, self.start_var.0 as int, #[trigger] row@[m]),
            decreases row@.len() - k,
        {
            proof {
                assert(slot_ok(g, word@, chart.rows(), chart.links(), n as int, k as int));
            }
            let st = row[k];
            let rule = &self.rules[st.rule_idx];
            if rule.head.0 == self.start_var.0 && st.l == 0 && st.parsed == rule.body.len() {
                return Some(k);
            }
            k += 1;
        }
        None
    }

    /// The productions of a list of rules are of machine size.
    pub proof fn lemma_machine_sized(rules: Vec<Rule<T>>)
        ensures
            machine_sized(productions(rules@)),
    {
        let g = productions(rules@);
        assert(g.len() == rules.len());
        assert forall|a: int| 0 <= a < g.len() implies (#[trigger] g[a]).body.len()
            <= usize::MAX by {
            assert(g[a].body.len() == rules@[a].body.len());
        }
    }

    /// What an accepting state shows: the word is derived from the start
    /// variable by the tree that the parents of the state describe.
    pub proof fn lemma_accepting_derives(&self, word: Seq<T>, chart: Chart, k: int)
        requires
            chart_ok(self.productions(), word, chart.rows(), chart.links()),
            0 <= k < chart.rows()[word.len() as int].len(),
            accepting(self.productions(), self.start_var.0 as int, chart.rows()[word.len() as int][k]),
        ensures
            derivation_of(
                self.productions(),
                Tree::Node(
                    chart.rows()[word.len() as int][k].rule_idx as int,
                    forest_of(word, chart.rows(), chart.links(), word.len() as int, k),
                ),
                self.start_var.0 as int,
                word,
            ),
    {
        lemma_forest_sound(
            self.productions(),
            word,
            chart.rows(),
            chart.links(),
            word.len() as int,
            k,
        );
        assert(word.subrange(0, word.len() as int) == word);
    }
}

impl<T: Term> Parser<Vec<T>> for EarleyParser<T> {
    type TermType = T;

    open spec fn ready(&self) -> bool {
        self.wf()
    }

    open spec fn fits(&self, word: Vec<T>) -> bool {
        word@.len() < usize::MAX
    }

    open spec fn in_language(&self, word: Vec<T>) -> bool {
        derives(self.productions(), self.start_var.0 as int, word@)
    }

    open spec fn shows(&self, word: Vec<T>, tree: Tree<T>) -> bool {
        derivation_of(self.productions(), tree, self.start_var.0 as int, word@)
    }

    open spec fn exact(&self) -> bool {
        true
    }

    /// Every word of the language has a tree.
    open spec fn treeless(&self, word: Vec<T>) -> bool {
        false
    }

    proof fn shown_is_in_language(&self, word: Vec<T>, tree: Tree<T>) {
    }

    fn test(&self, word: Vec<T>) -> (found: bool) {
        let chart = self.attempt_parse(&word);
        let at = self.find_accepting(&chart, &word);
        proof {
            let g = self.productions();
            let start = self.start_var.0 as int;
            if let Some(k) = at {
                self.lemma_accepting_derives(word@, chart, k as int);
            } else if derives(g, start, word@) {
                let t = choose|t: Tree<T>| derivation_of(g, t, start, word@);
                Self::lemma_machine_sized(self.rules);
                lemma_derivation_in_chart(g, word@, chart.rows(), chart.links(), start, t);
            }
        }
        at.is_some()
    }

    fn parse(&self, word: Vec<T>) -> (tree: Option<ParseTree<T>>)
        ensures
            tree matches Some(t) ==> t.root == self.start_var && t.labelled(self.productions()),
            match tree {
                Some(t) => earley_tree(self.productions(), word@, self.start_var.0 as int) == Some(
                    t.tree(),
                ),
                None => earley_tree(self.productions(), word@, self.start_var.0 as int) is None,
            },
    {
        let chart = self.attempt_parse(&word);
        let at = self.find_accepting(&chart, &word);
        proof {
            let g = self.productions();
            let start = self.start_var.0 as int;
            let row = chart.rows()[word@.len() as int];
            assert(chart.sheet().ss == chart.rows() && chart.sheet().ps == chart.links());
            if let Some(k) = at {
                assert(first_accepting(g, start, row, k as int));
                let k2 = choose|k2: int| first_accepting(g, start, row, k2);
                if k2 < k {
                    assert(!accepting(g, start, row[k2]));
                }
                if k < k2 {
                    assert(!accepting(g, start, row[k as int]));
                }
            } else {
                if exists|k2: int| first_accepting(g, start, row, k2) {
                    let k2 = choose|k2: int| first_accepting(g, start, row, k2);
                    assert(!accepting(g, start, row[k2]));
                }
            }
            if let Some(k) = at {
                self.lemma_accepting_derives(word@, chart, k as int);
                assert(self.shows(
                    word,
                    Tree::Node(
                        chart.rows()[word@.len() as int][k as int].rule_idx as int,
                        forest_of(word@, chart.rows(), chart.links(), word@.len() as int, k as int),
                    ),
                ));
            } else if derives(g, start, word@) {
                let t = choose|t: Tree<T>| derivation_of(g, t, start, word@);
                Self::lemma_machine_sized(self.rules);
                lemma_derivation_in_chart(g, word@, chart.rows(), chart.links(), start, t);
            }
        }
        match at {
            Some(k) => {
                let n = word.len();
                let builder = ParseTreeBuilder { parser: self, word, chart };
                Some(builder.build(n, k))
            },
            None => None,
        }
    }
}

/// Reads a parse tree off a chart.
pub struct ParseTreeBuilder<'a, T> {
    pub parser: &'a EarleyParser<T>,
    pub word: Vec<T>,
    pub chart: Chart,
}

impl<'a, T: Term> ParseTreeBuilder<'a, T> {
    /// Whether the chart is one of the parser for the word.
    pub open spec fn wf(&self) -> bool {
        &&& self.parser.wf()
        &&& chart_ok(self.parser.productions(), self.word@, self.chart.rows(), self.chart.links())
    }

    /// The parse tree of state `i` at position `r`: the rule of the state
    /// at the root and, below it, what the matched symbols became.
    pub fn build(&self, r: usize, i: usize) -> (tree: ParseTree<T>)
        requires
            self.wf(),
            r < self.chart.rows().len(),
            i < self.chart.rows()[r as int].len(),
        ensures
            tree.tree() == Tree::Node(
                self.chart.rows()[r as int][i as int].rule_idx as int,
                forest_of(self.word@, self.chart.rows(), self.chart.links(), r as int, i as int),
            ),
            tree.rule_idx == self.chart.rows()[r as int][i as int].rule_idx,
            tree.labelled(self.parser.productions()),
        decreases r, i,
    {
        let ghost g = self.parser.productions();
        proof {
            assert(slot_ok(g, self.word@, self.chart.rows(), self.chart.links(), r as int, i as int));
        }
        let st = self.chart.states[r][i];
        match self.chart.parents[r][i] {
            Parent::Start => {
                let tree = ParseTree {
                    root: self.parser.rules[st.rule_idx].head,
                    rule_idx: st.rule_idx,
                    children: Vec::new(),
                };
                assert(tree.tree()->Node_1 =~= Seq::<Tree<T>>::empty());
                tree
            },
            Parent::Scan(k) => {
                let mut tree = self.build(r - 1, k);
                let ghost before = tree.tree()->Node_1;
                let ghost kids = tree.children@;
                tree.children.push(ParsedSymbol::Term(self.word[r - 1].duplicate()));
                assert(tree.tree()->Node_1 =~= before.push(Tree::Leaf(self.word@[r - 1])));
                assert forall|j: int| 0 <= j < tree.children@.len() implies (
                #[trigger] tree.children@[j] matches ParsedSymbol::Var(sub) ==> sub.labelled(g)) by {
                    if j < kids.len() {
                        assert(tree.children@[j] == kids[j]);
                    }
                }
                tree
            },
            Parent::Complete(k, j) => {
                proof {
                    assert(slot_ok(
                        g,
                        self.word@,
                        self.chart.rows(),
                        self.chart.links(),
                        r as int,
                        k as int,
                    ));
                }
                let c = self.chart.states[r][k];
                let mut tree = self.build(c.l, j);
                let sub = self.build(r, k);
                let ghost before = tree.tree()->Node_1;
                let ghost below = sub.tree();
                let ghost kids = tree.children@;
                tree.children.push(ParsedSymbol::Var(Box::new(sub)));
                assert(tree.tree()->Node_1 =~= before.push(below));
                assert forall|j: int| 0 <= j < tree.children@.len() implies (
                #[trigger] tree.children@[j] matches ParsedSymbol::Var(sub) ==> sub.labelled(g)) by {
                    if j < kids.len() {
                        assert(tree.children@[j] == kids[j]);
                    }
                }
                tree
            },
        }
    }
}

} // verus!
