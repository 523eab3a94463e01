//! Definitions reported with the grammars' own declaration kinds: a C#
//! record is a `record` and a struct a `struct`, and namespaces are not
//! definitions.
use vstd::prelude::*;
use crate::config::SupportedLanguage;
use crate::language::{
    grammar_for, grammar_of, lines_ordered, parse_with, parsed_symbols, symbols_outcome, KindNames,
    ParseFailure,
};
use crate::Symbol;

verus! {

/// The definitions that a source file in `language` declares, with the
/// grammar's own kinds.
pub fn parse_source(source: &[u8], language: SupportedLanguage) -> (r: Result<Vec<Symbol>, ParseFailure>)
    ensures
        symbols_outcome(r) == parsed_symbols(KindNames::Declared, language, grammar_of(language, None), source@),
        r is Ok && source@.len() < 0x1_0000_0000 ==> lines_ordered(r->Ok_0@),
{
    let grammar = grammar_for(language, None);
    parse_with(KindNames::Declared, language, grammar, source)
}

} // verus!
