//! Chomsky normal form and the passes that lead to it.

use vstd::prelude::*;
use crate::cnf::closure::listed_rising;
use crate::cnf::eliminate_epsilon_rules::eliminate_epsilon_rules;
use crate::cnf::eliminate_long_rules::{eliminate_long_rules, extra};
use crate::cnf::eliminate_nonsolitary_terminals::{eliminate_nonsolitary_terminals, scan_rules};
use crate::cnf::eliminate_unit_rules::{eliminate_unit_rules, unit_closed};
use crate::cnf::epsilon_language::{eps_ready, lemma_epsilon_rules_keep_language};
use crate::cnf::long_language::{
    binarization_of, lemma_binarization_keeps_language, lemma_binarization_wf,
};
use crate::cnf::terminal_language::{
    isolation_of, lemma_isolation_keeps_extra, lemma_isolation_keeps_language, lemma_isolation_wf,
};
use crate::cnf::unit_language::{lemma_unit_rules_keep_language, unit_free_of};

use crate::derivation::derives;
use crate::grammar::{Cfg, Production, Symbol, Var};
use crate::term::Term;

pub mod closure;
pub mod eliminate_epsilon_rules;
pub mod eliminate_long_rules;
pub mod epsilon_language;
pub mod eliminate_nonsolitary_terminals;
pub mod eliminate_unit_rules;
pub mod graph;
pub mod kahn;
pub mod long_language;
pub mod nullable;
pub mod quotient;
pub mod rule_order;
pub mod scc;
pub mod search;
pub mod search_steps;
pub mod terminal_language;
pub mod unit_language;
pub mod weak_cnf;

verus! {

/// A rule of a grammar in Chomsky normal form.
#[derive(Debug, Clone, PartialEq, Eq, PartialOrd, Ord)]
pub enum CnfRule<T> {
    /// `A -> a`
    Terminal(Var, T),
    /// `A -> B C`
    Binary(Var, Var, Var),
}

/// A grammar in Chomsky normal form.
///
/// `nullable` tells, for each variable of the grammar that this one was
/// made from, whether it derives the empty word; `vars_map` tells which
/// variable of this grammar stands for it.
#[derive(Debug, Clone)]
pub struct Cnf<T> {
    pub nullable: Vec<bool>,
    pub rules: Vec<CnfRule<T>>,
    pub vars_map: Vec<Var>,
}

impl<T> CnfRule<T> {
    /// The variable on the left.
    pub open spec fn head(self) -> int {
        match self {
            CnfRule::Terminal(h, _) => h.0 as int,
            CnfRule::Binary(h, _, _) => h.0 as int,
        }
    }

    /// The rule with another variable on the left.
    pub open spec fn with_head(self, head: Var) -> CnfRule<T> {
        match self {
            CnfRule::Terminal(_, t) => CnfRule::Terminal(head, t),
            CnfRule::Binary(_, a, b) => CnfRule::Binary(head, a, b),
        }
    }

    /// The production that the rule stands for.
    pub open spec fn production(self) -> Production<T> {
        match self {
            CnfRule::Terminal(h, t) => Production { head: h.0 as int, body: seq![Symbol::Term(t)] },
            CnfRule::Binary(h, a, b) => Production {
                head: h.0 as int,
                body: seq![Symbol::Var(a), Symbol::Var(b)],
            },
        }
    }

    /// Whether every variable of the rule lies below `n`.
    pub open spec fn in_range(self, n: int) -> bool {
        match self {
            CnfRule::Terminal(h, _) => h.0 < n,
            CnfRule::Binary(h, a, b) => h.0 < n && a.0 < n && b.0 < n,
        }
    }
}

impl<T: Term> Cnf<T> {
    /// The grammar's productions.
    pub open spec fn productions(&self) -> Seq<Production<T>> {
        cnf_productions(self.rules@)
    }

    /// Whether the tables have one entry for each variable, and every
    /// variable of a rule, and every variable that stands for another, is
    /// one of them.
    pub open spec fn wf(&self) -> bool {
        &&& self.vars_map@.len() == self.nullable@.len()
        &&& forall|v: int|
            0 <= v < self.vars_map@.len() ==> (#[trigger] self.vars_map@[v]).0
                < self.nullable@.len()
        &&& forall|i: int|
            0 <= i < self.rules@.len() ==> (#[trigger] self.rules@[i]).in_range(
                self.nullable@.len() as int,
            )
    }

    /// Whether this grammar is a Chomsky normal form of the grammar `g`
    /// over `n0` variables: it says of each variable of `g` whether it
    /// derives the empty word, and the variable that stands for it derives
    /// the other words that it derives, and no others.
    pub open spec fn normal_form_of(&self, g: Seq<Production<T>>, n0: int) -> bool {
        &&& self.wf()
        &&& n0 <= self.nullable@.len()
        &&& forall|v: int|
            0 <= v < n0 ==> (#[trigger] self.nullable@[v] <==> derives(g, v, Seq::<T>::empty()))
        &&& forall|v: int, w: Seq<T>|
            0 <= v < n0 ==> (#[trigger] derives(self.productions(), self.vars_map@[v].0 as int, w)
                <==> w.len() > 0 && derives(g, v, w))
    }

    /// Whether this grammar is what the four passes make of the grammar `g`
    /// over `n0` variables: there are a grammar `g1` that is `g` with the
    /// terminals of its long bodies replaced by variables, and rules
    /// `rules2` that are `g1` with its long bodies cut down, such that the
    /// rules of this grammar are what taking the unit rules out of what
    /// `rules2` become without empty bodies gives, with the components of
    /// the unit rules numbered as the depth-first search closes them.
    pub open spec fn made_of(&self, g: Seq<Production<T>>, n0: int) -> bool {
        exists|g1: Seq<Production<T>>, rules2: Seq<crate::grammar::Rule<T>>|
            {
                &&& isolation_of(g, n0, scan_rules(g), g1)
                &&& #[trigger] binarization_of(
                    g1,
                    n0 + scan_rules(g).len(),
                    crate::grammar::productions(rules2),
                )
                &&& eps_ready(rules2, self.nullable@)
                &&& unit_free_of(
                    crate::cnf::eliminate_epsilon_rules::weak_rules_of(rules2, self.nullable@),
                    self.nullable@.len() as int,
                    self.vars_map@,
                    self.rules@,
                )
                &&& crate::cnf::eliminate_unit_rules::numbered_by_search(
                    crate::cnf::quotient::unit_adj(
                        crate::cnf::eliminate_epsilon_rules::weak_rules_of(rules2, self.nullable@),
                        self.nullable@.len() as int,
                    ),
                    self.vars_map@,
                )
            }
    }

    /// The Chomsky normal form of `cfg`.
    ///
    /// Four passes lead to it: the terminals of long bodies get variables
    /// of their own, long bodies are cut down to two symbols, empty bodies
    /// are taken out, and unit rules are taken out.
    pub fn of(cfg: Cfg<T>) -> (cnf: Self)
        requires
            cfg.wf(),
        ensures
            cnf.normal_form_of(cfg.productions(), cfg.var_names@.len() as int),
            cnf.made_of(cfg.productions(), cfg.var_names@.len() as int),
            listed_rising(cnf.rules@),
            cnf.nullable@.len() == cfg.var_names@.len() + scan_rules(cfg.productions()).len() + extra(
                cfg.productions(),
            ),
    {
        let ghost g = cfg.productions();
        let ghost n0 = cfg.var_names@.len() as int;
        let cfg1 = eliminate_nonsolitary_terminals(cfg);
        let ghost g1 = cfg1.productions();
        let ghost n1 = cfg1.var_names@.len() as int;
        let ghost memo = scan_rules(g);
        proof {
            assert(isolation_of(g, n0, memo, g1));
            lemma_isolation_wf(g, n0, memo, g1);
            lemma_isolation_keeps_extra(g, n0, memo, g1);
        }
        let cfg2 = eliminate_long_rules(cfg1);
        let ghost g2 = cfg2.productions();
        let ghost n2 = cfg2.var_names@.len() as int;
        proof {
            crate::cnf::eliminate_long_rules::lemma_extra_positive(g1);
            assert(cfg2.var_names.len() == n1 + extra(g1));
            assert(binarization_of(g1, n1, g2));
            lemma_binarization_wf(g1, n1, g2);
            assert(n0 <= n1 <= n2);
            assert(cfg2.wf());
        }
        let ghost rules2 = cfg2.rules@;
        let weak_cnf = eliminate_epsilon_rules(cfg2);
        let ghost weak = weak_cnf.rules@;
        let ghost nullable = weak_cnf.nullable@;
        proof {
            assert(eps_ready(rules2, nullable));
        }
        let cnf = eliminate_unit_rules(weak_cnf);
        proof {
            let map = cnf.vars_map@;
            assert(unit_free_of(weak, n2, map, cnf.rules@));
            assert(binarization_of(g1, n0 + scan_rules(g).len(), crate::grammar::productions(rules2)));
            assert(cnf.made_of(g, n0));
            assert forall|i: int| 0 <= i < cnf.rules@.len() implies (
            #[trigger] cnf.rules@[i]).in_range(cnf.nullable@.len() as int) by {
                let x = cnf.rules@[i];
                assert(cnf.rules@.contains(x));
                assert(unit_closed(weak, n2, map, x));
            }
            assert forall|v: int| 0 <= v < n0 implies (#[trigger] cnf.nullable@[v] <==> derives(
                g,
                v,
                Seq::<T>::empty(),
            )) by {
                lemma_binarization_keeps_language(g1, n1, g2, v, Seq::<T>::empty());
                lemma_isolation_keeps_language(g, n0, memo, g1, v, Seq::<T>::empty());
            }
            assert forall|v: int, w: Seq<T>| 0 <= v < n0 implies (#[trigger] derives(
                cnf.productions(),
                cnf.vars_map@[v].0 as int,
                w,
            ) <==> w.len() > 0 && derives(g, v, w)) by {
                lemma_unit_rules_keep_language(weak, n2, map, cnf.rules@, v, w);
                lemma_epsilon_rules_keep_language(rules2, nullable, v, w);
                lemma_binarization_keeps_language(g1, n1, g2, v, w);
                lemma_isolation_keeps_language(g, n0, memo, g1, v, w);
            }
        }
        cnf
    }
}

/// The productions of a list of rules, in the same order.
pub open spec fn cnf_productions<T>(rules: Seq<CnfRule<T>>) -> Seq<Production<T>> {
    Seq::new(rules.len(), |i: int| rules[i].production())
}

} // verus!
