//! Decoding of a small subset of the DOT graph language into a node list and
//! an adjacency structure.

pub mod graph;
pub mod laws;
pub mod parser;
pub mod tokenizer;

use vstd::prelude::*;
use vstd::string::StringSliceAdditionalSpecFns;

use crate::graph::Graph;
use crate::parser::{decodes_as, parse_spec, Parser, SyntaxError};
use crate::tokenizer::{bytes_of, delimiter_matches, is_token_of, split_spec, split_words, words_to_tokens, Token};

verus! {

/// Each token is the one its word stands for.
pub open spec fn classifies(toks: Seq<Token>, words: Seq<&str>) -> bool {
    &&& toks.len() == words.len()
    &&& forall|i: int| 0 <= i < toks.len() ==> is_token_of(#[trigger] toks[i], words[i]@)
}

/// Decodes a whole token stream with a fresh parser.
pub fn parse_tokens(tokens: Vec<Token>) -> (r: Result<Graph, SyntaxError>)
    ensures
        decodes_as(r, parse_spec(tokens@)),
{
    let mut parser = Parser::new();
    parser.parse(tokens)
}

/// Decodes a text: splits it into words, classifies them, and parses the
/// tokens.
pub fn parse_text(text: &str) -> (r: Result<Graph, SyntaxError>)
    ensures
        exists|words: Seq<&str>, toks: Seq<Token>|
            bytes_of(words) == split_spec(text.spec_bytes(), delimiter_matches(text.spec_bytes()))
                && classifies(toks, words) && decodes_as(r, parse_spec(toks)),
{
    let words = split_words(text);
    let tokens = words_to_tokens(&words);
    let ghost toks = tokens@;
    let result = parse_tokens(tokens);
    assert(classifies(toks, words@));
    result
}

} // verus!
