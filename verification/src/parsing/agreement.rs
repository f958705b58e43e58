//! The two parsers recognise the same words.

use vstd::prelude::*;
use crate::derivation::derives;
use crate::grammar::Cfg;
use crate::parsing::cyk::CykParser;
use crate::parsing::earley::EarleyParser;
use crate::parsing::Parser;
use crate::term::Term;

verus! {

/// Whether `earley` and `cyk` are parsers for the start variable of `cfg`.
pub open spec fn parsers_of<T: Term>(cfg: Cfg<T>, earley: EarleyParser<T>, cyk: CykParser<T>) -> bool {
    &&& earley.productions() == cfg.productions()
    &&& earley.start_var == cfg.start_var
    &&& forall|w: Seq<T>|
        #[trigger] cyk.accepts(w) <==> derives(cfg.productions(), cfg.start_var.0 as int, w)
}

/// An Earley parser and a CYK parser for the start variable of one
/// grammar have the same language, and it is that of the grammar; `test`
/// of either says of every word whether it is in that language.
pub proof fn lemma_parsers_agree<T: Term>(
    cfg: Cfg<T>,
    earley: EarleyParser<T>,
    cyk: CykParser<T>,
    word: Vec<T>,
)
    requires
        parsers_of(cfg, earley, cyk),
    ensures
        cyk.in_language(word) == earley.in_language(word),
        earley.in_language(word) == derives(cfg.productions(), cfg.start_var.0 as int, word@),
        cyk.exact(),
        earley.exact(),
{
}

} // verus!
