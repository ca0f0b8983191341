//! A small JSON-like document library: lexing, recursive-descent parsing
//! and canonical re-serialization, with the whole pipeline specified and
//! verified against one spec-level model.
use vstd::prelude::*;

pub mod j_item;
pub mod lexer;
pub mod parser;
pub mod laws;

use crate::j_item::JItem;
use crate::j_item::SpecItem;
use crate::lexer::lex;
use crate::lexer::spec_lex;
use crate::lexer::token_views;

verus! {

/// What the facade computes: the lexer run, then the parser run on its
/// tokens, first error wins.
pub open spec fn spec_parse_text(s: Seq<char>) -> Result<SpecItem, Seq<char>> {
    match spec_lex(s) {
        Ok(ts) => crate::parser::spec_parse(ts),
        Err(e) => Err(e),
    }
}

/// Lexes then parses the input, returning the tree or the first error from
/// either stage. Any tree handed out is well formed: objects never hold two
/// members with one key, and every number literal holds a digit.
pub fn parse(input_string: &str) -> (r: Result<JItem, String>)
    ensures
        match r {
            Ok(item) => spec_parse_text(input_string@) == Ok::<SpecItem, Seq<char>>(item@)
                && item@.wf(),
            Err(m) => spec_parse_text(input_string@) is Err && m@ == spec_parse_text(
                input_string@,
            )->Err_0,
        },
{
    let tokens = match lex(input_string) {
        Ok(t) => t,
        Err(m) => {
            return Err(m);
        },
    };
    proof {
        crate::laws::lemma_lex_wf(input_string@);
        crate::laws::lemma_parse_wf(token_views(tokens@));
    }
    crate::parser::parse(tokens)
}

} // verus!
