//! Weak Chomsky normal form: terminal, unit and binary rules.

use vstd::prelude::*;
use crate::grammar::{Production, Symbol, Var};

verus! {

/// A rule of a grammar in weak Chomsky normal form.
#[derive(Debug, Clone, Copy, PartialEq, Eq)]
pub enum WeakCnfRule<T> {
    /// `A -> a`
    Terminal(Var, T),
    /// `A -> B`
    Unit(Var, Var),
    /// `A -> B C`
    Binary(Var, Var, Var),
}

/// A grammar in weak Chomsky normal form, and for each variable whether it
/// derives the empty word in the grammar that this one was made from.
#[derive(Debug, Clone, Default)]
pub struct WeakCnf<T> {
    pub nullable: Vec<bool>,
    pub rules: Vec<WeakCnfRule<T>>,
}

/// The production that a rule stands for.
pub open spec fn weak_production<T>(r: WeakCnfRule<T>) -> Production<T> {
    match r {
        WeakCnfRule::Terminal(h, t) => Production { head: h.0 as int, body: seq![Symbol::Term(t)] },
        WeakCnfRule::Unit(h, u) => Production { head: h.0 as int, body: seq![Symbol::Var(u)] },
        WeakCnfRule::Binary(h, a, b) => Production {
            head: h.0 as int,
            body: seq![Symbol::Var(a), Symbol::Var(b)],
        },
    }
}

/// The productions of a list of rules, in the same order.
pub open spec fn weak_productions<T>(rules: Seq<WeakCnfRule<T>>) -> Seq<Production<T>> {
    Seq::new(rules.len(), |i: int| weak_production(rules[i]))
}

/// Whether every variable of `r` lies below `n`.
pub open spec fn weak_rule_in_range<T>(r: WeakCnfRule<T>, n: int) -> bool {
    match r {
        WeakCnfRule::Terminal(h, _) => h.0 < n,
        WeakCnfRule::Unit(h, u) => h.0 < n && u.0 < n,
        WeakCnfRule::Binary(h, a, b) => h.0 < n && a.0 < n && b.0 < n,
    }
}

impl<T> WeakCnf<T> {
    /// The number of variables.
    pub open spec fn n_vars(&self) -> int {
        self.nullable@.len() as int
    }

    /// The grammar's productions.
    pub open spec fn productions(&self) -> Seq<Production<T>> {
        weak_productions(self.rules@)
    }

    /// Whether every variable in a rule is one of the grammar.
    pub open spec fn wf(&self) -> bool {
        forall|i: int|
            0 <= i < self.rules@.len() ==> weak_rule_in_range(#[trigger] self.rules@[i], self.n_vars())
    }
}

} // verus!
