//! The first pass: a terminal in a body of more than one symbol is
//! replaced by a variable of its own.

use vstd::prelude::*;
use crate::grammar::{productions, Cfg, Production, Rule, Symbol, Var};
use crate::term::{find_key, Term};

verus! {

/// The terminals of `memo`, followed by those of `body` that are not among
/// them, each once, in the order in which they come first.
pub open spec fn scan_body<T>(body: Seq<Symbol<T>>, memo: Seq<T>) -> Seq<T>
    decreases body.len(),
{
    if body.len() == 0 {
        memo
    } else {
        let m = scan_body(body.drop_last(), memo);
        match body.last() {
            Symbol::Term(t) => if m.contains(t) {
                m
            } else {
                m.push(t)
            },
            Symbol::Var(_) => m,
        }
    }
}

/// The terminals that stand in a body of more than one symbol, each once,
/// in the order in which they come first.
pub open spec fn scan_rules<T>(g: Seq<Production<T>>) -> Seq<T>
    decreases g.len(),
{
    if g.len() == 0 {
        Seq::empty()
    } else {
        let m = scan_rules(g.drop_last());
        if g.last().body.len() > 1 {
            scan_body(g.last().body, m)
        } else {
            m
        }
    }
}

/// Whether `new` is what the symbol `old` of a long body becomes: a
/// variable stays, a terminal becomes the variable with the index `n0`
/// plus the place of the terminal in `memo`.
pub open spec fn isolated_sym<T>(old: Symbol<T>, new: Symbol<T>, memo: Seq<T>, n0: int) -> bool {
    match old {
        Symbol::Var(_) => new == old,
        Symbol::Term(t) => new matches Symbol::Var(u) && n0 <= u.0 < n0 + memo.len() && memo[u.0
            - n0] == t,
    }
}

/// Whether `new` is what the production `old` becomes.
pub open spec fn isolated<T>(old: Production<T>, new: Production<T>, memo: Seq<T>, n0: int) -> bool {
    &&& new.head == old.head
    &&& new.body.len() == old.body.len()
    &&& old.body.len() <= 1 ==> new.body == old.body
    &&& old.body.len() > 1 ==> forall|j: int|
        0 <= j < old.body.len() ==> isolated_sym(old.body[j], #[trigger] new.body[j], memo, n0)
}

/// The rule of the variable that stands for the terminal `memo[m]`.
pub open spec fn fresh_rule<T>(memo: Seq<T>, n0: int, m: int) -> Production<T> {
    Production { head: n0 + m, body: seq![Symbol::Term(memo[m])] }
}

/// Replaces each terminal in a body of more than one symbol by a variable
/// that stands for it. The variable of a terminal is made when the
/// terminal is met first, with the rule that leads from it to the
/// terminal, and used wherever the terminal stands in such a body.
pub fn eliminate_nonsolitary_terminals<T: Term>(cfg: Cfg<T>) -> (out: Cfg<T>)
    ensures
        out.start_var == cfg.start_var,
        out.var_names@.len() == cfg.var_names@.len() + scan_rules(cfg.productions()).len(),
        forall|v: int| 0 <= v < cfg.var_names@.len() ==> out.var_names@[v] == cfg.var_names@[v],
        forall|v: int|
            cfg.var_names@.len() <= v < out.var_names@.len() ==> (#[trigger] out.var_names@[v])@
                == "<GEN_TERM>"@,
        out.rules@.len() == cfg.rules@.len() + scan_rules(cfg.productions()).len(),
        forall|i: int|
            0 <= i < cfg.rules@.len() ==> isolated(
                cfg.productions()[i],
                #[trigger] out.productions()[i],
                scan_rules(cfg.productions()),
                cfg.var_names@.len() as int,
            ),
        forall|m: int|
            0 <= m < scan_rules(cfg.productions()).len() ==> #[trigger] out.productions()[cfg.rules@.len()
                + m] == fresh_rule(scan_rules(cfg.productions()), cfg.var_names@.len() as int, m),
{
    let ghost g = cfg.productions();
    let ghost names0 = cfg.var_names@;
    let start_var = cfg.start_var;
    let n0 = cfg.n_vars();
    let n_rules = cfg.rules.len();
    let mut cfg_builder = cfg.to_builder();
    let mut term_to_var_map: Vec<(T, Var)> = Vec::new();
    let ghost mut memo: Seq<T> = Seq::empty();
    let mut i: usize = 0;
    while i < n_rules
        invariant
            i <= n_rules,
            n_rules == g.len(),
            n0 == names0.len(),
            memo == scan_rules(g.take(i as int)),
            memo.no_duplicates(),
            term_to_var_map@.len() == memo.len(),
            forall|k: int|
                0 <= k < memo.len() ==> (#[trigger] term_to_var_map@[k]).0 == memo[k]
                    && term_to_var_map@[k].1.0 == n0 + k,
            cfg_builder.var_names@.len() == n0 + memo.len(),
            forall|v: int| 0 <= v < n0 ==> cfg_builder.var_names@[v] == names0[v],
            forall|v: int|
                n0 <= v < cfg_builder.var_names@.len() ==> (#[trigger] cfg_builder.var_names@[v])@
                    == "<GEN_TERM>"@,
            cfg_builder.rules@.len() == n_rules + memo.len(),
            forall|r: int|
                0 <= r < i ==> isolated(g[r], (#[trigger] cfg_builder.rules@[r])@, memo, n0 as int),
            forall|r: int| i <= r < n_rules ==> (#[trigger] cfg_builder.rules@[r])@ == g[r],
            forall|m: int|
                0 <= m < memo.len() ==> (#[trigger] cfg_builder.rules@[n_rules + m])@ == fresh_rule(
                    memo,
                    n0 as int,
                    m,
                ),
        decreases n_rules - i,
    {
        let ghost memo_at = memo;
        let ghost body0 = g[i as int].body;
        proof {
            assert(g.take(i + 1).drop_last() == g.take(i as int));
            assert(cfg_builder.rules@[i as int]@ == g[i as int]);
        }
        if cfg_builder.rules[i].body.len() > 1 {
            let body_len = cfg_builder.rules[i].body.len();
            let mut j: usize = 0;
            while j < body_len
                invariant
                    j <= body_len,
                    i < n_rules,
                    n_rules == g.len(),
                    n0 == names0.len(),
                    body0 == g[i as int].body,
                    body_len == body0.len(),
                    body_len > 1,
                    memo_at.no_duplicates(),
                    memo == scan_body(body0.take(j as int), memo_at),
                    memo.no_duplicates(),
                    memo_at.len() <= memo.len(),
                    forall|k: int| 0 <= k < memo_at.len() ==> memo[k] == memo_at[k],
                    term_to_var_map@.len() == memo.len(),
                    forall|k: int|
                        0 <= k < memo.len() ==> (#[trigger] term_to_var_map@[k]).0 == memo[k]
                            && term_to_var_map@[k].1.0 == n0 + k,
                    cfg_builder.var_names@.len() == n0 + memo.len(),
                    forall|v: int| 0 <= v < n0 ==> cfg_builder.var_names@[v] == names0[v],
                    forall|v: int|
                        n0 <= v < cfg_builder.var_names@.len() ==> (
                        #[trigger] cfg_builder.var_names@[v])@ == "<GEN_TERM>"@,
                    cfg_builder.rules@.len() == n_rules + memo.len(),
                    forall|r: int|
                        0 <= r < i ==> isolated(
                            g[r],
                            (#[trigger] cfg_builder.rules@[r])@,
                            memo,
                            n0 as int,
                        ),
                    forall|r: int| i < r < n_rules ==> (#[trigger] cfg_builder.rules@[r])@ == g[r],
                    forall|m: int|
                        0 <= m < memo.len() ==> (#[trigger] cfg_builder.rules@[n_rules + m])@
                            == fresh_rule(memo, n0 as int, m),
                    cfg_builder.rules@[i as int].head.0 == g[i as int].head,
                    cfg_builder.rules@[i as int].body@.len() == body_len,
                    forall|k: int|
                        0 <= k < j ==> isolated_sym(
                            body0[k],
                            #[trigger] cfg_builder.rules@[i as int].body@[k],
                            memo,
                            n0 as int,
                        ),
                    forall|k: int|
                        j <= k < body_len ==> (#[trigger] cfg_builder.rules@[i as int].body@[k])
                            == body0[k],
                decreases body_len - j,
            {
                let ghost memo1 = memo;
                let ghost rules1 = cfg_builder.rules@;
                proof {
                    assert(body0.take(j + 1).drop_last() == body0.take(j as int));
                    assert(cfg_builder.rules@[i as int].body@[j as int] == body0[j as int]);
                }
                let mapped: Option<Var> = match &cfg_builder.rules[i].body[j] {
                    Symbol::Term(term) => {
                        match find_key(&term_to_var_map, term) {
                            Some(k) => {
                                proof {
                                    assert(memo.contains(*term)) by {
                                        assert(memo[k as int] == *term);
                                    }
                                }
                                Some(term_to_var_map[k].1)
                            },
                            None => {
                                proof {
                                    if memo.contains(*term) {
                                        let k = choose|k: int|
                                            0 <= k < memo.len() && memo[k] == *term;
                                        assert(term_to_var_map@[k].0 == *term);
                                    }
                                }
                                let copy = term.duplicate();
                                let copy2 = term.duplicate();
                                let name = "<GEN_TERM>".to_string();
                                proof {
                                    vstd::string::to_string_from_display_ensures_for_str(
                                        "<GEN_TERM>",
                                        name,
                                    );
                                }
                                let ghost names_before = cfg_builder.var_names@;
                                let var = cfg_builder.add_var(name);
                                proof {
                                    assert forall|v: int|
                                        n0 <= v < cfg_builder.var_names@.len() implies (
                                    #[trigger] cfg_builder.var_names@[v])@ == "<GEN_TERM>"@ by {
                                        if v < names_before.len() {
                                            assert(cfg_builder.var_names@[v] == names_before[v]);
                                        }
                                    }
                                }
                                let mut body: Vec<Symbol<T>> = Vec::new();
                                body.push(Symbol::Term(copy));
                                cfg_builder.add_rule(Rule::new(var, body));
                                term_to_var_map.push((copy2, var));
                                proof {
                                    memo = memo.push(copy2);
                                    assert(body@ =~= seq![Symbol::Term(copy)]);
                                    assert forall|a: int, b: int|
                                        0 <= a < memo.len() && 0 <= b < memo.len() && a
                                            != b implies memo[a] != memo[b] by {
                                        if a < memo1.len() {
                                            assert(memo1.contains(memo1[a]));
                                        }
                                        if b < memo1.len() {
                                            assert(memo1.contains(memo1[b]));
                                        }
                                    }
                                }
                                Some(var)
                            },
                        }
                    },
                    Symbol::Var(_) => None,
                };
                proof {
                    assert(memo == scan_body(body0.take(j + 1), memo_at));
                }
                if let Some(mapped_var) = mapped {
                    cfg_builder.rules[i].body[j] = Symbol::Var(mapped_var);
                }
                proof {
                    assert forall|r: int| 0 <= r < i implies isolated(
                        g[r],
                        (#[trigger] cfg_builder.rules@[r])@,
                        memo,
                        n0 as int,
                    ) by {
                        assert(cfg_builder.rules@[r] == rules1[r]);
                        assert(isolated(g[r], rules1[r]@, memo1, n0 as int));
                        let old = g[r];
                        let new = rules1[r]@;
                        if old.body.len() > 1 {
                            assert forall|k: int| 0 <= k < old.body.len() implies isolated_sym(
                                old.body[k],
                                #[trigger] new.body[k],
                                memo,
                                n0 as int,
                            ) by {
                                assert(isolated_sym(old.body[k], new.body[k], memo1, n0 as int));
                            }
                        }
                    }
                    assert forall|r: int| i < r < n_rules implies (
                    #[trigger] cfg_builder.rules@[r])@ == g[r] by {
                        assert(cfg_builder.rules@[r] == rules1[r]);
                    }
                    assert forall|m: int| 0 <= m < memo.len() implies (
                    #[trigger] cfg_builder.rules@[n_rules + m])@ == fresh_rule(
                        memo,
                        n0 as int,
                        m,
                    ) by {
                        if m < memo1.len() {
                            assert(cfg_builder.rules@[n_rules + m] == rules1[n_rules + m]);
                            assert(rules1[n_rules + m]@ == fresh_rule(memo1, n0 as int, m));
                        }
                    }
                    assert forall|k: int| 0 <= k < j + 1 implies isolated_sym(
                        body0[k],
                        #[trigger] cfg_builder.rules@[i as int].body@[k],
                        memo,
                        n0 as int,
                    ) by {
                        if k < j {
                            assert(cfg_builder.rules@[i as int].body@[k] == rules1[i as int].body@[k]);
                            assert(isolated_sym(
                                body0[k],
                                rules1[i as int].body@[k],
                                memo1,
                                n0 as int,
                            ));
                        }
                    }
                    assert forall|k: int| j + 1 <= k < body_len implies (
                    #[trigger] cfg_builder.rules@[i as int].body@[k]) == body0[k] by {
                        assert(cfg_builder.rules@[i as int].body@[k] == rules1[i as int].body@[k]);
                    }
                }
                j += 1;
            }
            proof {
                assert(body0.take(j as int) == body0);
                let new = cfg_builder.rules@[i as int]@;
                assert forall|k: int| 0 <= k < body0.len() implies isolated_sym(
                    body0[k],
                    #[trigger] new.body[k],
                    memo,
                    n0 as int,
                ) by {
                    assert(new.body[k] == cfg_builder.rules@[i as int].body@[k]);
                }
                assert(isolated(g[i as int], new, memo, n0 as int));
            }
        } else {
            proof {
                assert(isolated(g[i as int], cfg_builder.rules@[i as int]@, memo, n0 as int));
            }
        }
        i += 1;
    }
    proof {
        assert(g.take(i as int) == g);
    }
    cfg_builder.build(start_var)
}

} // verus!
