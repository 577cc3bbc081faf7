//! A document as a whole: from its bytes to its tree and back.

use crate::cst::{render, Cst, NodeView};
use crate::parser::{in_usual_form, lemma_parse_is_lossless, parse_tokens, ErrorView, Parser};
use crate::tokenizer::{
    chunk_len, feed, has_utf16_mark, has_utf8_mark, lemma_lex_source, lemma_read_chunks, read_chunks,
    strip_mark, tokenize,
};
use crate::tokens::{tokens_source, TokenView};
use vstd::prelude::*;
use vstd::string::StrSliceExecFns;
use vstd::utf8::*;

verus! {

/// Why bytes are no document.
#[derive(Debug)]
pub enum Error {
    /// The bytes are not valid UTF-8.
    Tokenizer(crate::tokenizer::Error),
    /// The tokens are no document.
    Parser(crate::parser::Error),
}

/// The tree of the document `input`.
pub fn parse<const LENGTH: usize>(input: &[u8]) -> (r: Result<Cst<LENGTH>, Error>)
    ensures
        match read_chunks(Seq::<TokenView>::empty(), input@, true) {
            None => r matches Err(Error::Tokenizer(_)),
            Some(tokens) => match parse_tokens(tokens) {
                Err(e) => r matches Err(Error::Parser(err)) && err@ == e,
                Ok(nodes) => r matches Ok(cst) && cst@ == nodes,
            },
        },
{
    let tokens = match tokenize(input) {
        Ok(tokens) => tokens,
        Err(e) => {
            return Err(Error::Tokenizer(e));
        },
    };
    let parser = Parser::default();
    match parser.parse::<LENGTH>(tokens) {
        Ok(cst) => Ok(cst),
        Err(e) => Err(Error::Parser(e)),
    }
}

/// The bytes of the document `cst`: its text in UTF-8, without a
/// byte-order mark.
pub fn to_bytes<const LENGTH: usize>(cst: &Cst<LENGTH>) -> (r: Vec<u8>)
    ensures
        r@ == encode_utf8(render(cst@)),
{
    let text = cst.to_string();
    text.as_str().as_bytes_vec()
}

/// A document that is read and written back comes back byte for byte,
/// where it starts with no byte-order mark, which is not written back, and
/// writes every address in its usual form, in which it is written back.
pub proof fn lemma_round_trip(input: Seq<u8>, tokens: Seq<TokenView>, nodes: Seq<NodeView>)
    requires
        read_chunks(Seq::<TokenView>::empty(), input, true) == Some(tokens),
        parse_tokens(tokens) == Ok::<Seq<NodeView>, ErrorView>(nodes),
        !has_utf8_mark(input),
        !has_utf16_mark(input),
        in_usual_form(tokens, nodes),
    ensures
        encode_utf8(render(nodes)) == input,
{
    let none = Seq::<TokenView>::empty();
    assert(read_chunks(none, input, true) == read_chunks(none, input, false)) by {
        if input.len() > 0 {
            let chunk = input.take(chunk_len(input));
            assert(chunk.len() >= 3 ==> chunk[0] == input[0] && chunk[1] == input[1] && chunk[2]
                == input[2]);
            assert(chunk.len() >= 2 ==> chunk[0] == input[0] && chunk[1] == input[1]);
            assert(strip_mark(chunk) == chunk);
        }
    }
    lemma_read_chunks(none, input);
    lemma_lex_source(none, decode_utf8(input));
    assert(tokens_source(none) + decode_utf8(input) =~= decode_utf8(input));
    lemma_parse_is_lossless(tokens, nodes);
    decode_utf8_encode_utf8(input);
}

} // verus!
