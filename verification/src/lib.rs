pub mod ast;
pub mod decode;
/// Character cursor over the source text with span bookkeeping.
mod cursor;
pub mod derive;
pub mod dialect;
pub mod errors;
/// Writing integer literals in decimal.
pub mod number;
/// Tokeniser that turns source text into a stream of tagged tokens.
mod lexer;
/// Recursive descent parser that builds the document from lexer tokens.
pub mod parser;
pub mod span;
/// Decoding of quoted, raw, and multiline string bodies.
mod strings;
pub mod text;

use vstd::prelude::*;

use crate::dialect::Dialect;
use crate::errors::syntax_error_in;
use crate::parser::{all_trees_read, all_nested_within, depth_limit, document_in_order, document_within, errors_within, sorted_by_offset};
use crate::text::text_len;

verus! {

/// # Errors
///
/// Fails at the first syntax error.
pub fn parse(source: &str) -> (result: Result<ast::Document<'_>, errors::Error>)
    ensures
        result matches Ok(document) ==> document.span.start_at() == 0 && document.span.size()
            == text_len(source@) && document_within(document, source@)
            && all_nested_within(document.nodes@, depth_limit())
            && document_in_order(document) && all_trees_read(document.nodes@, Dialect::V2, source@),
        result matches Err(error) ==> syntax_error_in(error, source@),
{
    Dialect::V2.parse(source)
}

pub fn parse_lenient(source: &str) -> (outcome: (ast::Document<'_>, Vec<errors::Error>))
    ensures
        document_within(outcome.0, source@),
        all_nested_within(outcome.0.nodes@, depth_limit()),
        document_in_order(outcome.0),
        outcome.0.span.start_at() == 0,
        outcome.0.span.size() == text_len(source@) || outcome.0.span.size() == 0,
        errors_within(outcome.1@, source@),
        sorted_by_offset(outcome.1@),
        outcome.1@.len() == 0 ==> outcome.0.span.size() == text_len(source@) && all_trees_read(
            outcome.0.nodes@,
            Dialect::V2,
            source@,
        ),
{
    Dialect::V2.parse_lenient(source)
}

} // verus!
