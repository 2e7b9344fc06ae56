use crate::language::Language;
use std::rc::Rc;
use vstd::prelude::*;

verus! {

/// A parser built for a language whose action routines are of type `R`.
pub trait Parser<R>: Sized {
    fn new(language: Rc<Language<R>>) -> Self;
}

/// Splits input into the tokens of a language.
pub struct Tokenizer<R> {
    language: Rc<Language<R>>,
}

} // verus!
