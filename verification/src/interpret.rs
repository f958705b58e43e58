//! Folding a parse tree from the leaves up, with one function for each rule.

use vstd::prelude::*;
use crate::parsing::{ParseTree, ParsedSymbol};
use std::marker::PhantomData;

verus! {

/// What a child of a parse tree has become: a terminal stays what it is, a
/// tree becomes its meaning.
pub enum InterpretedSymbol<T, M> {
    Term(T),
    Var(M),
}

/// One function for each rule of a grammar; the function of a rule gives
/// the meaning of a tree from what its children have become.
pub struct Interpreter<T, M, F> {
    pub rules: Vec<F>,
    pub symbols: PhantomData<(T, M)>,
}

impl<T, M, F: Fn(Vec<InterpretedSymbol<T, M>>) -> M> Interpreter<T, M, F> {
    /// Whether there is a function for the rule of every node of `tree`.
    pub open spec fn fits(&self, tree: ParseTree<T>) -> bool
        decreases tree,
    {
        &&& tree.rule_idx < self.rules@.len()
        &&& forall|i: int|
            0 <= i < tree.children@.len() ==> (#[trigger] tree.children@[i] matches ParsedSymbol::Var(
                sub,
            ) ==> self.fits(*sub))
    }

    /// Whether every function can be called with every list of symbols.
    pub open spec fn total(&self) -> bool {
        forall|k: int, args: Vec<InterpretedSymbol<T, M>>|
            0 <= k < self.rules@.len() ==> #[trigger] call_requires(self.rules@[k], (args,))
    }

    /// Whether `args` is what the children `children` can become.
    pub open spec fn args_mean(
        &self,
        children: Seq<ParsedSymbol<T>>,
        args: Seq<InterpretedSymbol<T, M>>,
    ) -> bool
        decreases children, 0nat,
    {
        &&& args.len() == children.len()
        &&& forall|i: int|
            0 <= i < children.len() ==> match #[trigger] children[i] {
                ParsedSymbol::Term(t) => args[i] == InterpretedSymbol::<T, M>::Term(t),
                ParsedSymbol::Var(sub) => args[i] matches InterpretedSymbol::Var(m) && self.means(
                    *sub,
                    m,
                ),
            }
    }

    /// Whether `m` can be the meaning of `tree`: the function of the rule at
    /// its root can give `m` for what its children can become.
    pub open spec fn means(&self, tree: ParseTree<T>, m: M) -> bool
        decreases tree, 1nat,
    {
        exists|args: Vec<InterpretedSymbol<T, M>>|
            self.args_mean(tree.children@, args@) && #[trigger] call_ensures(
                self.rules@[tree.rule_idx as int],
                (args,),
                m,
            )
    }

    /// The interpreter with the functions `rules`, one for each rule.
    pub fn new(rules: Vec<F>) -> (interpreter: Self)
        ensures
            interpreter.rules == rules,
    {
        Self { rules, symbols: PhantomData }
    }

    /// The meaning of `parse_tree`. The children are interpreted from left
    /// to right, then the function of the rule at the root is called.
    pub fn interpret(&self, parse_tree: ParseTree<T>) -> (meaning: M)
        requires
            self.total(),
            self.fits(parse_tree),
        ensures
            self.means(parse_tree, meaning),
        decreases parse_tree,
    {
        let ghost tree = parse_tree;
        let ParseTree { root: _, rule_idx, children } = parse_tree;
        let ghost all = children@;
        let mut children = children;
        let mut waiting: Vec<ParsedSymbol<T>> = Vec::new();
        while children.len() > 0
            invariant
                children@.len() + waiting@.len() == all.len(),
                forall|i: int| 0 <= i < children@.len() ==> children@[i] == all[i],
                forall|i: int|
                    0 <= i < waiting@.len() ==> waiting@[i] == all[all.len() - 1 - i],
            decreases children@.len(),
        {
            let child = children.pop().unwrap();
            waiting.push(child);
        }
        let mut interpreted_symbols: Vec<InterpretedSymbol<T, M>> = Vec::new();
        while waiting.len() > 0
            invariant
                tree == parse_tree,
                all == tree.children@,
                self.total(),
                self.fits(tree),
                waiting@.len() + interpreted_symbols@.len() == all.len(),
                forall|i: int|
                    0 <= i < waiting@.len() ==> waiting@[i] == all[all.len() - 1 - i],
                self.args_mean(all.take(interpreted_symbols@.len() as int), interpreted_symbols@),
            decreases waiting@.len(),
        {
            let ghost k = interpreted_symbols@.len() as int;
            let ghost before = interpreted_symbols@;
            let child = waiting.pop().unwrap();
            assert(child == all[k]);
            let symbol = match child {
                ParsedSymbol::Term(term) => InterpretedSymbol::Term(term),
                ParsedSymbol::Var(sub) => {
                    assert(self.fits(*sub));
                    proof {
                        vstd::std_specs::vec::axiom_vec_index_decreases(tree.children, k);
                        assert(tree.children[k] == all[k]);
                        assert(decreases_to!(tree => tree.children));
                        assert(decreases_to!(tree.children => tree.children[k]));
                        assert(decreases_to!(all[k] => sub));
                        assert(decreases_to!(tree => *sub));
                    }
                    InterpretedSymbol::Var(self.interpret(*sub))
                },
            };
            interpreted_symbols.push(symbol);
            proof {
                let args = interpreted_symbols@;
                let done = all.take(k + 1);
                assert forall|i: int| 0 <= i < done.len() implies match #[trigger] done[i] {
                    ParsedSymbol::Term(t) => args[i] == InterpretedSymbol::<T, M>::Term(t),
                    ParsedSymbol::Var(sub) => args[i] matches InterpretedSymbol::Var(m)
                        && self.means(*sub, m),
                } by {
                    if i < k {
                        assert(all.take(k)[i] == done[i]);
                        assert(args[i] == before[i]);
                    }
                }
            }
        }
        proof {
            assert(all.take(all.len() as int) == all);
        }
        let rule = &self.rules[rule_idx];
        let meaning = rule(interpreted_symbols);
        meaning
    }
}

} // verus!
