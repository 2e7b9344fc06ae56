pub mod grammar;

use crate::symbol::{Symbol, SymbolDomain};
use self::grammar::Grammar;
use vstd::prelude::*;

verus! {

/// A token of the language: the symbol it stands for and the pattern that matches it.
pub struct TokenRule {
    symbol: Symbol,
    pattern: String,
}

/// A language: its symbols, its tokens and its grammar, whose action routines are of type `R`.
pub struct Language<R> {
    symbol_domain: SymbolDomain,
    token_rules: Vec<TokenRule>,
    grammar: Grammar<R>,
}

} // verus!
