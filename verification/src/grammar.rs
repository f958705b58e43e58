//! The grammar model: variables, symbols, rules, and the builder that puts
//! a grammar together.

use vstd::prelude::*;

verus! {

/// A nonterminal, named by its index in the grammar's table of variables.
#[derive(Debug, Clone, Copy, PartialEq, Eq, PartialOrd, Ord, Hash, Structural)]
pub struct Var(pub usize);

/// One symbol of a rule's body.
#[derive(Debug, Clone, PartialEq, Eq)]
pub enum Symbol<T> {
    Var(Var),
    Term(T),
}

/// A rule `head -> body`; an empty body derives the empty word.
#[derive(Debug, Clone, PartialEq, Eq)]
pub struct Rule<T> {
    pub head: Var,
    pub body: Vec<Symbol<T>>,
}

/// What a rule says, as a mathematical value.
pub ghost struct Production<T> {
    pub head: int,
    pub body: Seq<Symbol<T>>,
}

impl<T> View for Rule<T> {
    type V = Production<T>;

    open spec fn view(&self) -> Production<T> {
        Production { head: self.head.0 as int, body: self.body@ }
    }
}

/// The productions of a list of rules, in the same order.
pub open spec fn productions<T>(rules: Seq<Rule<T>>) -> Seq<Production<T>> {
    Seq::new(rules.len(), |i: int| rules[i]@)
}

/// Whether every variable that the productions name lies below `n_vars`.
pub open spec fn productions_in_range<T>(g: Seq<Production<T>>, n_vars: int) -> bool {
    forall|i: int|
        0 <= i < g.len() ==> {
            &&& 0 <= (#[trigger] g[i]).head < n_vars
            &&& forall|j: int|
                0 <= j < g[i].body.len() ==> (#[trigger] g[i].body[j] matches Symbol::Var(v)
                    ==> v.0 < n_vars)
        }
}

/// A context-free grammar: a start variable, the variables' names and the
/// rules in the order in which they were added.
#[derive(Debug, Clone)]
pub struct Cfg<T> {
    pub start_var: Var,
    pub var_names: Vec<String>,
    pub rules: Vec<Rule<T>>,
}

/// Collects the variables and rules of a grammar.
pub struct CfgBuilder<T> {
    pub var_names: Vec<String>,
    pub rules: Vec<Rule<T>>,
}

impl<T> Rule<T> {
    /// The rule `head -> body`.
    pub fn new(head: Var, body: Vec<Symbol<T>>) -> (rule: Self)
        ensures
            rule.head == head,
            rule.body == body,
    {
        Self { head, body }
    }
}

impl<T> Cfg<T> {
    /// The grammar's productions, in the order of its rules.
    pub open spec fn productions(&self) -> Seq<Production<T>> {
        productions(self.rules@)
    }

    /// Whether the start variable and every variable in a rule is in the
    /// table of variables.
    pub open spec fn wf(&self) -> bool {
        &&& self.start_var.0 < self.var_names.len()
        &&& productions_in_range(self.productions(), self.var_names.len() as int)
    }

    /// A builder without variables and rules.
    pub fn builder() -> (b: CfgBuilder<T>)
        ensures
            b.var_names@.len() == 0,
            b.rules@.len() == 0,
    {
        CfgBuilder { var_names: Vec::new(), rules: Vec::new() }
    }

    /// Takes the grammar apart again; the start variable is forgotten.
    pub fn to_builder(self) -> (b: CfgBuilder<T>)
        ensures
            b.var_names == self.var_names,
            b.rules == self.rules,
    {
        let Self { var_names, rules, .. } = self;
        CfgBuilder { var_names, rules }
    }

    /// The number of variables.
    pub fn n_vars(&self) -> (n: usize)
        ensures
            n == self.var_names@.len(),
    {
        self.var_names.len()
    }

    /// The rules whose head is `var`, in the order in which they were added.
    pub fn rules(&self, var: Var) -> (found: Vec<&Rule<T>>)
        ensures
            found@ == self.rules@.filter(|r: Rule<T>| r.head == var).map_values(|r: Rule<T>| &r),
    {
        let mut found: Vec<&Rule<T>> = Vec::new();
        let mut i: usize = 0;
        while i < self.rules.len()
            invariant
                i <= self.rules@.len(),
                found@ == self.rules@.take(i as int).filter(|r: Rule<T>| r.head == var).map_values(|r: Rule<T>| &r),
            decreases self.rules@.len() - i,
        {
            proof {
                reveal(Seq::filter);
                assert(self.rules@.take(i + 1).drop_last() == self.rules@.take(i as int));
            }
            if self.rules[i].head == var {
                found.push(&self.rules[i]);
            }
            i += 1;
        }
        proof {
            assert(self.rules@.take(i as int) == self.rules@);
        }
        found
    }
}

impl<T> CfgBuilder<T> {
    /// Adds a variable and returns it: the next index of the table.
    pub fn add_var(&mut self, name: String) -> (var: Var)
        ensures
            var.0 == old(self).var_names@.len(),
            final(self).var_names@ == old(self).var_names@.push(name),
            final(self).rules == old(self).rules,
    {
        let var = Var(self.var_names.len());
        self.var_names.push(name);
        var
    }

    /// Adds a rule behind those that are there. The rule is not examined.
    pub fn add_rule(&mut self, rule: Rule<T>) -> (builder: &mut Self)
        ensures
            builder.rules@ == old(self).rules@.push(rule),
            builder.var_names == old(self).var_names,
            *final(self) == *final(builder),
    {
        self.rules.push(rule);
        self
    }

    /// Adds the rules in their order.
    pub fn add_rules(&mut self, rules: Vec<Rule<T>>) -> (builder: &mut Self)
        ensures
            builder.rules@ == old(self).rules@ + rules@,
            builder.var_names == old(self).var_names,
            *final(self) == *final(builder),
    {
        let mut rules = rules;
        self.rules.append(&mut rules);
        self
    }

    /// The grammar with the given start variable.
    pub fn build(self, start_var: Var) -> (cfg: Cfg<T>)
        ensures
            cfg.start_var == start_var,
            cfg.var_names == self.var_names,
            cfg.rules == self.rules,
    {
        let Self { var_names, rules } = self;
        Cfg { start_var, var_names, rules }
    }
}

} // verus!
