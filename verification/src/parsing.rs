//! Recognising and parsing words: the parse tree and the two parsers.

use vstd::prelude::*;
use crate::derivation::Tree;
use crate::grammar::{Production, Var};
use crate::term::Term;

pub mod agreement;
pub mod chart;
pub mod completeness;
pub mod cyk;
pub mod earley;
pub mod forest;
pub mod run;
pub mod format;
pub mod table;

pub use cyk::CykParser;
pub use earley::EarleyParser;
pub use format::{FormatOptions, FormatStyle, ParseTreeFormatter, Show};

verus! {

/// One derivation of a word: the variable at the root, the index of the rule
/// that was applied to it, and what the symbols of that rule's body became.
#[derive(Debug)]
pub struct ParseTree<T> {
    pub root: Var,
    pub rule_idx: usize,
    pub children: Vec<ParsedSymbol<T>>,
}

/// A child of a parse tree: a terminal of the word, or the tree of a variable.
#[derive(Debug)]
pub enum ParsedSymbol<T> {
    Term(T),
    Var(Box<ParseTree<T>>),
}

impl<T> ParseTree<T> {
    /// Whether the variable at every node is the head of the rule that is
    /// applied there.
    pub open spec fn labelled(&self, g: Seq<Production<T>>) -> bool
        decreases self,
    {
        &&& self.root.0 == g[self.rule_idx as int].head
        &&& forall|i: int|
            0 <= i < self.children@.len() ==> (#[trigger] self.children@[i] matches ParsedSymbol::Var(
                sub,
            ) ==> sub.labelled(g))
    }

    /// The derivation tree that this parse tree stands for.
    pub open spec fn tree(&self) -> Tree<T>
        decreases self,
    {
        Tree::Node(
            self.rule_idx as int,
            Seq::new(
                self.children@.len(),
                |i: int|
                    if 0 <= i < self.children@.len() {
                        match self.children@[i] {
                            ParsedSymbol::Term(a) => Tree::Leaf(a),
                            ParsedSymbol::Var(sub) => sub.tree(),
                        }
                    } else {
                        arbitrary()
                    },
            ),
        )
    }
}

impl<T: Term> ParseTree<T> {
    /// A copy of this tree.
    pub fn copy(&self) -> (tree: Self)
        ensures
            tree.root == self.root,
            tree.rule_idx == self.rule_idx,
            tree.tree() == self.tree(),
        decreases self,
    {
        let mut children: Vec<ParsedSymbol<T>> = Vec::new();
        let mut i: usize = 0;
        while i < self.children.len()
            invariant
                i <= self.children@.len(),
                children@.len() == i,
                forall|j: int|
                    0 <= j < i ==> match #[trigger] children@[j] {
                        ParsedSymbol::Term(a) => self.children@[j] == ParsedSymbol::Term(a),
                        ParsedSymbol::Var(sub) => self.children@[j] matches ParsedSymbol::Var(other)
                            && sub.tree() == other.tree(),
                    },
            decreases self.children@.len() - i,
        {
            let child = match &self.children[i] {
                ParsedSymbol::Term(term) => ParsedSymbol::Term(term.duplicate()),
                ParsedSymbol::Var(sub) => {
                    proof {
                        vstd::std_specs::vec::axiom_vec_index_decreases(self.children, i as int);
                        assert(decreases_to!(*self => self.children));
                        assert(decreases_to!(self.children => self.children[i as int]));
                        assert(decreases_to!(*self => **sub));
                    }
                    ParsedSymbol::Var(Box::new(sub.copy()))
                },
            };
            children.push(child);
            i += 1;
        }
        let tree = ParseTree { root: self.root, rule_idx: self.rule_idx, children };
        proof {
            assert(tree.tree()->Node_1 =~= self.tree()->Node_1);
        }
        tree
    }
}

impl<T: Term> Clone for ParseTree<T> {
    fn clone(&self) -> (tree: Self)
        ensures
            tree.tree() == self.tree(),
    {
        self.copy()
    }
}

impl<T: Term> Clone for ParsedSymbol<T> {
    fn clone(&self) -> (symbol: Self) {
        match self {
            ParsedSymbol::Term(term) => ParsedSymbol::Term(term.duplicate()),
            ParsedSymbol::Var(sub) => ParsedSymbol::Var(Box::new(sub.copy())),
        }
    }
}

/// What the two parsers offer: recognising a word and parsing it.
pub trait Parser<W> {
    type TermType: Term;

    /// Whether the parser is well formed.
    spec fn ready(&self) -> bool;

    /// Whether `word` is short enough for this machine.
    spec fn fits(&self, word: W) -> bool;

    /// Whether the start variable of the parser's grammar derives `word`.
    spec fn in_language(&self, word: W) -> bool;

    /// Whether `tree` is a derivation of `word` from the start variable.
    spec fn shows(&self, word: W, tree: Tree<Self::TermType>) -> bool;

    /// Whether the parser finds every word of the language.
    spec fn exact(&self) -> bool;

    /// Whether `word`, if it is in the language, has no tree that the
    /// parser could return.
    spec fn treeless(&self, word: W) -> bool;

    /// A derivation shows that its word is in the language.
    proof fn shown_is_in_language(&self, word: W, tree: Tree<Self::TermType>)
        requires
            self.shows(word, tree),
        ensures
            self.in_language(word),
    ;

    /// Whether `word` is in the language.
    fn test(&self, word: W) -> (found: bool)
        requires
            self.ready(),
            self.fits(word),
        ensures
            found ==> self.in_language(word),
            self.exact() ==> found == self.in_language(word),
    ;

    /// A derivation of `word`, if it is in the language and has a tree;
    /// what `test` says of a word that has a tree is whether `parse`
    /// returns one.
    fn parse(&self, word: W) -> (tree: Option<ParseTree<Self::TermType>>)
        requires
            self.ready(),
            self.fits(word),
        ensures
            tree matches Some(t) ==> self.shows(word, t.tree()),
            self.exact() ==> tree.is_some() == (self.in_language(word) && !self.treeless(word)),
    ;
}

} // verus!
