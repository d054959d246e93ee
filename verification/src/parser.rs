//! From the bytes of a document to its value tree.

use crate::decoder_helper::{decoded, DecodingError, ErrorView, ParseDetail, ParseDetailView};
use crate::encoding::document_tree;
use crate::syntax::{is_well_formed, well_formed, MAX_DEPTH};
use crate::value::{build_tree, token_views, Token, TokenView, Tree, Value};
use bencode::streaming::{BencodeEvent, StreamingParser};
use vstd::prelude::*;

verus! {

/// The events that the streaming parser of the `bencode` crate reports for a
/// document, in their order.
pub uninterp spec fn events_of(doc: Seq<u8>) -> Seq<TokenView>;

/// Runs `bencode::streaming::StreamingParser` over a document and collects
/// its events, each turned into the [`Token`] of the same name.
///
/// Not proved: that the events depend on the bytes alone, and that the parser
/// returns on every well-formed document. It adds up digits without a check,
/// reserves room for a byte string from its written length alone, and counts
/// the bytes it has read in 32 bits, so that it is run on well-formed
/// documents only: there every number fits, every byte string lies within
/// the document, and the document is short enough to be counted.
#[verifier::external_body]
fn parse_events(doc: &[u8]) -> (tokens: Vec<Token>)
    requires
        well_formed(doc@),
    ensures
        token_views(tokens@) == events_of(doc@),
{
    StreamingParser::new(doc.iter().cloned())
        .map(|event| match event {
            BencodeEvent::NumberValue(n) => Token::Number(n),
            BencodeEvent::ByteStringValue(bytes) => Token::ByteString(bytes),
            BencodeEvent::ListStart => Token::ListStart,
            BencodeEvent::ListEnd => Token::ListEnd,
            BencodeEvent::DictStart => Token::DictStart,
            BencodeEvent::DictKey(key) => Token::DictKey(key),
            BencodeEvent::DictEnd => Token::DictEnd,
            BencodeEvent::ParseError(e) => Token::ParseError { pos: e.pos, msg: e.msg },
        })
        .collect()
}

/// The value tree of a document, or why there is none.
///
/// A document that is not well formed is `Malformed`. Of a well-formed one
/// the parser's events decide: they nest into one tree, or they report the
/// parser's error, or they are `Malformed` themselves. A tree that is not
/// the one that the document encodes is a `Mismatch`.
pub open spec fn parse_result(doc: Seq<u8>) -> Result<Tree, ErrorView> {
    if !well_formed(doc) {
        Err(ErrorView::ParseError(ParseDetailView::Malformed))
    } else {
        match build_tree(events_of(doc)) {
            Ok(tree) => if document_tree(doc) == Some(tree) {
                Ok(tree)
            } else {
                Err(ErrorView::ParseError(ParseDetailView::Mismatch))
            },
            Err(detail) => Err(ErrorView::ParseError(detail)),
        }
    }
}

/// The tree of a document that parses is the tree that the document
/// encodes, whatever the parser did.
pub proof fn lemma_parsed_tree_is_encoded(doc: Seq<u8>)
    ensures
        parse_result(doc) matches Ok(tree) ==> document_tree(doc) == Some(tree),
{
}

/// Parses a document into its value tree.
pub fn parse(doc: &[u8]) -> (r: Result<Value, DecodingError>)
    ensures
        decoded(r) == parse_result(doc@),
        r matches Ok(tree) ==> document_tree(doc@) == Some(tree@),
{
    if !is_well_formed(doc) {
        return Err(DecodingError::ParseError(ParseDetail::Malformed));
    }
    let tokens = parse_events(doc);
    match Value::from_tokens(&tokens) {
        Ok(value) => match value.encoded_at(doc, 0, MAX_DEPTH) {
            Some(_) => Ok(value),
            None => Err(DecodingError::ParseError(ParseDetail::Mismatch)),
        },
        Err(detail) => Err(DecodingError::ParseError(detail)),
    }
}

} // verus!
