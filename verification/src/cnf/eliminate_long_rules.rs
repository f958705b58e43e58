//! The second pass: bodies longer than two symbols are cut down.

use vstd::prelude::*;
use crate::grammar::{productions, Cfg, Production, Rule, Symbol, Var};

verus! {

/// The number of variables that cutting down the bodies of `g` adds: for
/// each body the number of its symbols beyond two.
pub open spec fn extra<T>(g: Seq<Production<T>>) -> int
    decreases g.len(),
{
    if g.len() == 0 {
        0
    } else {
        extra(g.drop_last()) + if g.last().body.len() > 2 {
            g.last().body.len() - 2
        } else {
            0
        }
    }
}

/// The rule of the auxiliary variable with index `m` for the long body
/// `body`: the first holds the last two symbols of the body, each later
/// one the symbol before and the auxiliary variable before.
pub open spec fn aux_rule<T>(body: Seq<Symbol<T>>, base: int, m: int) -> Production<T> {
    Production {
        head: base + m,
        body: seq![
            body[body.len() - 2 - m],
            if m == 0 {
                body[body.len() - 1]
            } else {
                Symbol::Var(Var((base + m - 1) as usize))
            },
        ],
    }
}

/// The rules of the auxiliary variables for `body`, the first of which
/// has the index `base`.
pub open spec fn chain<T>(body: Seq<Symbol<T>>, base: int) -> Seq<Production<T>> {
    if body.len() > 2 {
        Seq::new((body.len() - 2) as nat, |m: int| aux_rule(body, base, m))
    } else {
        Seq::empty()
    }
}

/// The production with its body cut down: a long body keeps its first
/// symbol, followed by the last auxiliary variable.
pub open spec fn shorten<T>(p: Production<T>, base: int) -> Production<T> {
    if p.body.len() > 2 {
        Production {
            head: p.head,
            body: seq![p.body[0], Symbol::Var(Var((base + p.body.len() - 3) as usize))],
        }
    } else {
        p
    }
}

/// The productions of `g`, each cut down; `n0` is the number of variables
/// of `g`.
pub open spec fn bin_front<T>(g: Seq<Production<T>>, n0: int) -> Seq<Production<T>> {
    Seq::new(g.len(), |i: int| shorten(g[i], n0 + extra(g.take(i))))
}

/// The rules of the auxiliary variables for all bodies of `g`, in the
/// order of `g`.
pub open spec fn bin_aux<T>(g: Seq<Production<T>>, n0: int) -> Seq<Production<T>>
    decreases g.len(),
{
    if g.len() == 0 {
        Seq::empty()
    } else {
        bin_aux(g.drop_last(), n0) + chain(g.last().body, n0 + extra(g.drop_last()))
    }
}

/// Cutting bodies down takes no variable away.
pub proof fn lemma_extra_positive<T>(g: Seq<Production<T>>)
    ensures
        extra(g) >= 0,
    decreases g.len(),
{
    if g.len() > 0 {
        lemma_extra_positive(g.drop_last());
    }
}

/// Cuts every body of more than two symbols down to two: the last two
/// symbols are replaced by a new variable with a rule of its own, until
/// two are left.
pub fn eliminate_long_rules<T>(cfg: Cfg<T>) -> (out: Cfg<T>)
    ensures
        out.start_var == cfg.start_var,
        out.var_names@.len() == cfg.var_names@.len() + extra(cfg.productions()),
        forall|v: int| 0 <= v < cfg.var_names@.len() ==> out.var_names@[v] == cfg.var_names@[v],
        forall|v: int|
            cfg.var_names@.len() <= v < out.var_names@.len() ==> (#[trigger] out.var_names@[v])@
                == "<GEN_AUX>"@,
        out.productions() == bin_front(cfg.productions(), cfg.var_names@.len() as int) + bin_aux(
            cfg.productions(),
            cfg.var_names@.len() as int,
        ),
{
    let ghost g = cfg.productions();
    let ghost names0 = cfg.var_names@;
    let start_var = cfg.start_var;
    let n0 = cfg.n_vars();
    let n_rules = cfg.rules.len();
    let mut cfg_builder = cfg.to_builder();
    let mut i: usize = 0;
    while i < n_rules
        invariant
            i <= n_rules,
            n_rules == g.len(),
            n0 == names0.len(),
            cfg_builder.var_names@.len() == n0 + extra(g.take(i as int)),
            forall|v: int| 0 <= v < n0 ==> cfg_builder.var_names@[v] == names0[v],
            forall|v: int|
                n0 <= v < cfg_builder.var_names@.len() ==> (#[trigger] cfg_builder.var_names@[v])@
                    == "<GEN_AUX>"@,
            cfg_builder.rules@.len() == n_rules + extra(g.take(i as int)),
            forall|r: int|
                0 <= r < i ==> (#[trigger] cfg_builder.rules@[r])@ == shorten(
                    g[r],
                    n0 + extra(g.take(r)),
                ),
            forall|r: int| i <= r < n_rules ==> (#[trigger] cfg_builder.rules@[r])@ == g[r],
            productions(cfg_builder.rules@.subrange(n_rules as int, cfg_builder.rules@.len() as int))
                == bin_aux(g.take(i as int), n0 as int),
        decreases n_rules - i,
    {
        let ghost base = n0 + extra(g.take(i as int));
        let ghost body0 = g[i as int].body;
        let ghost len0 = body0.len() as int;
        let ghost rules_at = cfg_builder.rules@;
        proof {
            lemma_extra_positive(g.take(i as int));
            assert(g.take(i + 1).drop_last() == g.take(i as int));
            assert(cfg_builder.rules@[i as int]@ == g[i as int]);
        }
        let ghost mut m: int = 0;
        while cfg_builder.rules[i].body.len() > 2
            invariant
                i < n_rules,
                n_rules == g.len(),
                n0 == names0.len(),
                body0 == g[i as int].body,
                len0 == body0.len(),
                base == n0 + extra(g.take(i as int)),
                base >= n0,
                0 <= m,
                m == 0 || len0 > 2,
                m <= len0 - 2 || m == 0,
                cfg_builder.var_names@.len() == base + m,
                forall|v: int| 0 <= v < n0 ==> cfg_builder.var_names@[v] == names0[v],
                forall|v: int|
                    n0 <= v < cfg_builder.var_names@.len() ==> (
                    #[trigger] cfg_builder.var_names@[v])@ == "<GEN_AUX>"@,
                cfg_builder.rules@.len() == rules_at.len() + m,
                rules_at.len() == n_rules + extra(g.take(i as int)),
                forall|r: int|
                    0 <= r < rules_at.len() && r != i ==> (#[trigger] cfg_builder.rules@[r])
                        == rules_at[r],
                forall|k: int|
                    0 <= k < m ==> (#[trigger] cfg_builder.rules@[rules_at.len() + k])@ == aux_rule(
                        body0,
                        base,
                        k,
                    ),
                cfg_builder.rules@[i as int].head.0 == g[i as int].head,
                m == 0 ==> cfg_builder.rules@[i as int].body@ == body0,
                m > 0 ==> cfg_builder.rules@[i as int].body@ == body0.take(len0 - 1 - m).push(
                    Symbol::Var(Var((base + m - 1) as usize)),
                ),
            decreases cfg_builder.rules@[i as int].body@.len(),
        {
            let ghost cur = cfg_builder.rules@[i as int].body@;
            let last_symbol = cfg_builder.rules[i].body.pop().unwrap();
            let second_last_symbol = cfg_builder.rules[i].body.pop().unwrap();
            let name = "<GEN_AUX>".to_string();
            proof {
                vstd::string::to_string_from_display_ensures_for_str("<GEN_AUX>", name);
            }
            let ghost names_before = cfg_builder.var_names@;
            let aux_var = cfg_builder.add_var(name);
            proof {
                assert forall|v: int| n0 <= v < cfg_builder.var_names@.len() implies (
                #[trigger] cfg_builder.var_names@[v])@ == "<GEN_AUX>"@ by {
                    if v < names_before.len() {
                        assert(cfg_builder.var_names@[v] == names_before[v]);
                    }
                }
            }
            let mut pair: Vec<Symbol<T>> = Vec::new();
            pair.push(second_last_symbol);
            pair.push(last_symbol);
            cfg_builder.add_rule(Rule::new(aux_var, pair));
            cfg_builder.rules[i].body.push(Symbol::Var(aux_var));
            proof {
                assert(pair@ =~= seq![second_last_symbol, last_symbol]);
                assert(cfg_builder.rules@[rules_at.len() + m]@ =~= aux_rule(body0, base, m));
                assert(cfg_builder.rules@[i as int].body@ =~= body0.take(len0 - 1 - (m + 1)).push(
                    Symbol::Var(Var((base + m) as usize)),
                ));
                m = m + 1;
            }
        }
        proof {
            let rules_now = cfg_builder.rules@;
            let body_now = cfg_builder.rules@[i as int].body@;
            if m > 0 {
                assert(m == len0 - 2);
                assert(body_now =~= seq![
                    body0[0],
                    Symbol::Var(Var((base + len0 - 3) as usize)),
                ]);
            }
            assert(cfg_builder.rules@[i as int]@ == shorten(g[i as int], base));
            let tail0 = rules_at.subrange(n_rules as int, rules_at.len() as int);
            let tail1 = rules_now.subrange(n_rules as int, rules_now.len() as int);
            assert(productions(tail1) =~= productions(tail0) + chain(body0, base)) by {
                assert forall|k: int| 0 <= k < tail1.len() implies productions(tail1)[k] == (
                productions(tail0) + chain(body0, base))[k] by {
                    if k < tail0.len() {
                        assert(tail1[k] == rules_now[n_rules + k]);
                        assert(tail0[k] == rules_at[n_rules + k]);
                    } else {
                        assert(tail1[k] == rules_now[rules_at.len() + (k - tail0.len())]);
                    }
                }
            }
            assert forall|r: int| 0 <= r < i + 1 implies (#[trigger] cfg_builder.rules@[r])@
                == shorten(g[r], n0 + extra(g.take(r))) by {
                if r < i {
                    assert(cfg_builder.rules@[r] == rules_at[r]);
                }
            }
            assert forall|r: int| i + 1 <= r < n_rules implies (#[trigger] cfg_builder.rules@[r])@
                == g[r] by {
                assert(cfg_builder.rules@[r] == rules_at[r]);
            }
        }
        i += 1;
    }
    proof {
        assert(g.take(i as int) == g);
        lemma_extra_positive(g);
    }
    let out = cfg_builder.build(start_var);
    proof {
        let tail = out.rules@.subrange(n_rules as int, out.rules@.len() as int);
        assert(productions(tail).len() == tail.len());
        assert(out.productions() =~= bin_front(g, n0 as int) + bin_aux(g, n0 as int)) by {
            assert forall|k: int| 0 <= k < out.rules@.len() implies out.productions()[k] == (
            bin_front(g, n0 as int) + bin_aux(g, n0 as int))[k] by {
                if k >= n_rules {
                    assert(productions(tail)[k - n_rules] == tail[k - n_rules]@);
                }
            }
        }
    }
    out
}

} // verus!
