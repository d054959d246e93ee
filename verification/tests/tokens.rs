use torrent_core::decoder_helper::{DecodingError, ParseDetail};
use torrent_core::parser::parse;
use torrent_core::value::{Token, Value};

#[test]
fn tokens_nest_into_a_tree() {
    let tokens = vec![
        Token::DictStart,
        Token::DictKey(b"k".to_vec()),
        Token::ListStart,
        Token::Number(1),
        Token::ByteString(b"x".to_vec()),
        Token::ListStart,
        Token::ListEnd,
        Token::ListEnd,
        Token::DictKey(b"a".to_vec()),
        Token::DictStart,
        Token::DictEnd,
        Token::DictEnd,
    ];
    assert_eq!(
        Value::from_tokens(&tokens),
        Ok(Value::Dict(vec![
            (
                b"k".to_vec(),
                Value::List(vec![
                    Value::Integer(1),
                    Value::ByteString(b"x".to_vec()),
                    Value::List(Vec::new()),
                ])
            ),
            (b"a".to_vec(), Value::Dict(Vec::new())),
        ]))
    );
}

#[test]
fn read_gives_the_value_and_the_next_token() {
    let tokens = vec![Token::Number(1), Token::ListStart, Token::Number(2), Token::ListEnd];
    assert_eq!(Value::read(&tokens, 0, 0), Ok((Value::Integer(1), 1)));
    assert_eq!(Value::read(&tokens, 1, 1), Ok((Value::List(vec![Value::Integer(2)]), 4)));
    assert_eq!(Value::read(&tokens, 2, 0), Ok((Value::Integer(2), 3)));
    assert_eq!(Value::read(&tokens, 1, 0), Err(ParseDetail::Malformed));
    assert_eq!(Value::read(&tokens, 3, 5), Err(ParseDetail::Malformed));
    assert_eq!(Value::read(&tokens, 4, 5), Err(ParseDetail::Malformed));
    assert_eq!(Value::read(&tokens, 9, 5), Err(ParseDetail::Malformed));
}

#[test]
fn tokens_that_nest_into_nothing() {
    assert_eq!(Value::from_tokens(&Vec::new()), Err(ParseDetail::Malformed));
    assert_eq!(Value::from_tokens(&vec![Token::ListStart]), Err(ParseDetail::Malformed));
    assert_eq!(Value::from_tokens(&vec![Token::ListEnd]), Err(ParseDetail::Malformed));
    assert_eq!(Value::from_tokens(&vec![Token::DictEnd]), Err(ParseDetail::Malformed));
    assert_eq!(
        Value::from_tokens(&vec![Token::DictKey(b"k".to_vec())]),
        Err(ParseDetail::Malformed)
    );
    assert_eq!(
        Value::from_tokens(&vec![Token::Number(1), Token::Number(2)]),
        Err(ParseDetail::Malformed)
    );
    assert_eq!(
        Value::from_tokens(&vec![Token::ListStart, Token::DictEnd]),
        Err(ParseDetail::Malformed)
    );
    assert_eq!(
        Value::from_tokens(&vec![Token::DictStart, Token::Number(1), Token::DictEnd]),
        Err(ParseDetail::Malformed)
    );
    assert_eq!(
        Value::from_tokens(&vec![Token::DictStart, Token::DictKey(b"k".to_vec()), Token::DictEnd]),
        Err(ParseDetail::Malformed)
    );
    assert_eq!(
        Value::from_tokens(&vec![Token::DictStart, Token::ListEnd]),
        Err(ParseDetail::Malformed)
    );
}

#[test]
fn a_reported_error_is_passed_on() {
    let error = || Token::ParseError { pos: 3, msg: "bad".to_string() };
    let rejected = Err(ParseDetail::Rejected { pos: 3, msg: "bad".to_string() });
    assert_eq!(Value::from_tokens(&vec![error()]), rejected);
    assert_eq!(Value::from_tokens(&vec![Token::Number(1), error()]), rejected);
    assert_eq!(Value::from_tokens(&vec![Token::ListStart, Token::Number(1), error()]), rejected);
    assert_eq!(Value::from_tokens(&vec![Token::DictStart, error()]), rejected);
    assert_eq!(
        Value::from_tokens(&vec![Token::DictStart, Token::DictKey(b"k".to_vec()), error()]),
        rejected
    );
}

#[test]
fn token_nesting_is_held_to_the_depth() {
    let mut tokens = vec![Token::ListStart; 64];
    tokens.extend(vec![Token::ListEnd; 64]);
    assert!(Value::from_tokens(&tokens).is_ok());
    let mut tokens = vec![Token::ListStart; 65];
    tokens.extend(vec![Token::ListEnd; 65]);
    assert_eq!(Value::from_tokens(&tokens), Err(ParseDetail::Malformed));
}

#[test]
fn a_tree_is_copied_whole() {
    let tree = parse(b"d1:kl4:spami3eld1:xi-1eeee1:zi0ee").unwrap();
    let copy = tree.clone();
    assert_eq!(copy, tree);
    assert_eq!(
        copy,
        Value::Dict(vec![
            (
                b"k".to_vec(),
                Value::List(vec![
                    Value::ByteString(b"spam".to_vec()),
                    Value::Integer(3),
                    Value::List(vec![Value::Dict(vec![(b"x".to_vec(), Value::Integer(-1))])]),
                ])
            ),
            (b"z".to_vec(), Value::Integer(0)),
        ])
    );
}

#[test]
fn documents_parse_into_trees() {
    assert_eq!(parse(b"i-42e"), Ok(Value::Integer(-42)));
    assert_eq!(parse(b"i-0e"), Ok(Value::Integer(0)));
    assert_eq!(parse(b"0:"), Ok(Value::ByteString(Vec::new())));
    assert_eq!(parse(b"03:a\x00\xff"), Ok(Value::ByteString(vec![b'a', 0, 0xff])));
    assert_eq!(parse(b"le"), Ok(Value::List(Vec::new())));
    assert_eq!(parse(b"de"), Ok(Value::Dict(Vec::new())));
    assert_eq!(
        parse(b"l4:spami3elee"),
        Ok(Value::List(vec![
            Value::ByteString(b"spam".to_vec()),
            Value::Integer(3),
            Value::List(Vec::new()),
        ]))
    );
    assert_eq!(
        parse(b"d1:kd1:kleee"),
        Ok(Value::Dict(vec![(
            b"k".to_vec(),
            Value::Dict(vec![(b"k".to_vec(), Value::List(Vec::new()))])
        )]))
    );
}

#[test]
fn documents_keep_repeated_keys_in_order() {
    assert_eq!(
        parse(b"d1:zi1e1:ai2e1:zi3ee"),
        Ok(Value::Dict(vec![
            (b"z".to_vec(), Value::Integer(1)),
            (b"a".to_vec(), Value::Integer(2)),
            (b"z".to_vec(), Value::Integer(3)),
        ]))
    );
}

#[test]
fn documents_that_are_no_bencode() {
    let malformed = Err(DecodingError::ParseError(ParseDetail::Malformed));
    assert_eq!(parse(b""), malformed);
    assert_eq!(parse(b"i1"), malformed);
    assert_eq!(parse(b"i1ei2e"), malformed);
    assert_eq!(parse(b"l"), malformed);
    assert_eq!(parse(b"d1:a"), malformed);
    assert_eq!(parse(b"99999999999999999999:"), malformed);
    assert_eq!(parse(b"9:short"), malformed);
    assert_eq!(parse(b"i999999999999999999999999e"), malformed);
    assert_eq!(parse(b"hello"), malformed);
}
