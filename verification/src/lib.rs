//! Fennec: a human-writable configuration language.
//!
//! The crate lexes Fennec text into tokens, parses the token stream into a
//! [`value::FennecType`] tree by recursive descent, and renders such a tree
//! back to canonical Fennec text.  Every step is specified against a
//! mathematical mirror of the grammar: the lexer against [`token::next_tok`],
//! the parser against [`parse::p_root`], and the serializer against
//! [`serialize::render`].

use vstd::prelude::*;

pub mod token;
pub mod value;
pub mod parse;
pub mod serialize;
pub mod laws;

verus! {

/// What `parse` yields on a given text: the tree of the document grammar at
/// the start of the text, or the first offending token.
pub open spec fn spec_parse(s: Seq<char>) -> Result<value::ValueModel, token::Lexeme> {
    match parse::p_root(s, 0) {
        Ok((v, _)) => Ok(v),
        Err(t) => Err(t),
    }
}

/// Parse a Fennec document: the value tree described by [`spec_parse`], or
/// the first token the grammar forbids.
pub fn parse(text: &str) -> (r: Result<value::FennecType, parse::ParseError>)
    ensures
        match r {
            Ok(v) => spec_parse(text@) matches Ok(m) && v@ == m,
            Err(e) => spec_parse(text@) matches Err(l) && e@ == l,
        },
{
    let tokenizer = token::Tokenizer::new(text);
    let mut parser = parse::Parser::new(tokenizer);
    parser.parse_root()
}

} // verus!
