//! A JSON text processor: a tokenizer, a recursive-descent parser and a
//! generator that writes the parsed document back as indented text.
//!
//! [`pretty_json`] runs the three stages in turn. Each stage is specified by
//! a function on mathematical values ([`tokenizer::lex`],
//! [`parser::parse_value`], [`generator::render`]), and [`pretty`] is their
//! composition.
use crate::document::Document;
use crate::generator::{render, Generator};
use crate::parser::{parse_value, Parser};
use crate::tokenizer::{lex_all, Tokenizer};
use vstd::prelude::*;

pub mod document;
pub mod generator;
pub mod json_util;
pub mod members;
pub mod parser;
pub mod roundtrip;
pub mod text;
pub mod tokenizer;

verus! {

/// The document that the text `json` starts with, or the text of the first
/// failure: that of the tokenizer, which reads the whole text first, or else
/// that of the parser. Tokens that follow the document are not looked at.
pub open spec fn parse_text(json: Seq<char>) -> Result<Document, Seq<char>> {
    match lex_all(json) {
        Err(message) => Err(message),
        Ok(tokens) => parse_value(tokens).outcome,
    }
}

/// The indented text of the document that `json` holds, or the text of the
/// first failure.
pub open spec fn pretty(json: Seq<char>, indent: nat) -> Result<Seq<char>, Seq<char>> {
    match parse_text(json) {
        Err(message) => Err(message),
        Ok(document) => Ok(render(document, indent, Seq::empty())),
    }
}

/// The value of a result that holds a text or the text of a failure.
pub open spec fn text_result_view(r: Result<String, String>) -> Result<Seq<char>, Seq<char>> {
    match r {
        Ok(text) => Ok(text@),
        Err(message) => Err(message@),
    }
}

/// Reads `json` and writes it back with each level of nesting indented by
/// `indent_size` spaces; or returns the message of the first failure.
pub fn pretty_json(json: String, indent_size: usize) -> (r: Result<String, String>)
    ensures
        text_result_view(r) == pretty(json@, indent_size as nat),
{
    let tokenizer = Tokenizer::new(json.as_str());
    let tokens = tokenizer.collect()?;

    let mut parser = Parser::new(tokens);
    let node = parser.parse()?;

    let generator = Generator::new(node, indent_size);
    Ok(generator.generate())
}

} // verus!
