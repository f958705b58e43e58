//! The names that most users of the library need.

pub use crate::cnf::{Cnf, CnfRule};
pub use crate::grammar::{Cfg, CfgBuilder, Rule, Symbol, Var};
pub use crate::interpret::{InterpretedSymbol, Interpreter};
pub use crate::parsing::{
    CykParser, EarleyParser, FormatOptions, FormatStyle, ParseTree, ParsedSymbol, Parser, Show,
};
pub use crate::term::Term;
