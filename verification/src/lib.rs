//! Context-free grammars: normalisation into Chomsky normal form and
//! recognition of words by the CYK and Earley algorithms.
//!
//! A grammar is put together with a [`CfgBuilder`]. [`cnf::Cnf::of`] brings
//! it into Chomsky normal form; [`parsing::CykParser`] recognises words with
//! the normal form, [`parsing::EarleyParser`] recognises and parses them
//! with the grammar as it is. What it means for a variable to derive a
//! word is said in [`derivation`]. [`brackets`] holds the grammar of
//! balanced brackets with the proof of what its language is.

pub mod brackets;
pub mod cnf;
pub mod counting;
pub mod derivation;
pub mod grammar;
pub mod interpret;
pub mod parsing;
pub mod prelude;
pub mod term;

pub use grammar::{Cfg, CfgBuilder, Rule, Symbol, Var};
pub use term::Term;
