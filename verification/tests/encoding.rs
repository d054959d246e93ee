use torrent_core::parser::parse;
use torrent_core::syntax::read_integer;
use torrent_core::value::Value;

fn text(s: &str) -> Value {
    Value::ByteString(s.as_bytes().to_vec())
}

#[test]
fn integers_are_read_with_their_sign() {
    assert_eq!(read_integer(b"i0e", 0), Some((0, 3)));
    assert_eq!(read_integer(b"i-0e", 0), Some((0, 4)));
    assert_eq!(read_integer(b"i42e", 0), Some((42, 4)));
    assert_eq!(read_integer(b"i-42e", 0), Some((-42, 5)));
    assert_eq!(read_integer(b"lei7e", 2), Some((7, 5)));
    assert_eq!(read_integer(b"i9223372036854775807e", 0), Some((i64::MAX, 21)));
    assert_eq!(read_integer(b"i-9223372036854775808e", 0), Some((i64::MIN, 22)));
    assert_eq!(read_integer(b"i-9223372036854775807e", 0), Some((i64::MIN + 1, 22)));
    assert_eq!(read_integer(b"i9223372036854775808e", 0), None);
    assert_eq!(read_integer(b"i01e", 0), None);
    assert_eq!(read_integer(b"i1", 0), None);
    assert_eq!(read_integer(b"1:x", 0), None);
    assert_eq!(read_integer(b"", 0), None);
}

#[test]
fn a_tree_is_encoded_by_its_own_bytes() {
    assert_eq!(Value::Integer(-3).encoded_at(b"i-3e", 0, 0), Some(4));
    assert_eq!(Value::Integer(0).encoded_at(b"i-0e", 0, 0), Some(4));
    assert_eq!(text("spam").encoded_at(b"4:spam", 0, 0), Some(6));
    assert_eq!(text("spam").encoded_at(b"04:spam", 0, 0), Some(7));
    assert_eq!(text("").encoded_at(b"0:", 0, 0), Some(2));
    assert_eq!(Value::List(Vec::new()).encoded_at(b"le", 0, 1), Some(2));
    assert_eq!(Value::Dict(Vec::new()).encoded_at(b"de", 0, 1), Some(2));
    let tree = Value::Dict(vec![
        (b"b".to_vec(), Value::List(vec![Value::Integer(1), text("x")])),
        (b"a".to_vec(), Value::Dict(vec![(b"k".to_vec(), Value::Integer(2))])),
        (b"b".to_vec(), Value::Integer(3)),
    ]);
    let doc = b"d1:bli1e1:xe1:ad1:ki2ee1:bi3ee";
    assert_eq!(tree.encoded_at(doc, 0, 2), Some(doc.len()));
    assert_eq!(tree.encoded_at(doc, 0, 64), Some(doc.len()));
    assert_eq!(Value::Integer(2).encoded_at(doc, 19, 0), Some(22));
    assert_eq!(parse(doc), Ok(tree));
}

#[test]
fn a_tree_is_not_encoded_by_other_bytes() {
    assert_eq!(Value::Integer(3).encoded_at(b"i4e", 0, 0), None);
    assert_eq!(Value::Integer(3).encoded_at(b"i03e", 0, 0), None);
    assert_eq!(Value::Integer(3).encoded_at(b"1:3", 0, 0), None);
    assert_eq!(Value::Integer(3).encoded_at(b"i3e", 1, 0), None);
    assert_eq!(Value::Integer(3).encoded_at(b"i3e", 3, 0), None);
    assert_eq!(Value::Integer(3).encoded_at(b"i3e", 9, 0), None);
    assert_eq!(text("spam").encoded_at(b"4:spaM", 0, 0), None);
    assert_eq!(text("spam").encoded_at(b"3:spam", 0, 0), None);
    assert_eq!(text("spam").encoded_at(b"4:spa", 0, 0), None);
    assert_eq!(text("1").encoded_at(b"i1e", 0, 0), None);
    let list = Value::List(vec![Value::Integer(1), Value::Integer(2)]);
    assert_eq!(list.encoded_at(b"li1ei2ee", 0, 1), Some(8));
    assert_eq!(list.encoded_at(b"li1ei2ee", 0, 0), None);
    assert_eq!(list.encoded_at(b"li1ee", 0, 1), None);
    assert_eq!(list.encoded_at(b"li1ei2ei3ee", 0, 1), None);
    assert_eq!(list.encoded_at(b"li2ei1ee", 0, 1), None);
    assert_eq!(list.encoded_at(b"li1ei2e", 0, 1), None);
    assert_eq!(list.encoded_at(b"di1ei2ee", 0, 1), None);
    assert_eq!(list.encoded_at(b"d1:ai2ee", 0, 1), None);
    let dict = Value::Dict(vec![
        (b"a".to_vec(), Value::Integer(1)),
        (b"b".to_vec(), Value::Integer(2)),
    ]);
    assert_eq!(dict.encoded_at(b"d1:ai1e1:bi2ee", 0, 1), Some(14));
    assert_eq!(dict.encoded_at(b"d1:ai1e1:bi2ee", 0, 0), None);
    assert_eq!(dict.encoded_at(b"d1:bi2e1:ai1ee", 0, 1), None);
    assert_eq!(dict.encoded_at(b"d1:ai1e1:ci2ee", 0, 1), None);
    assert_eq!(dict.encoded_at(b"d1:ai1e1:bi3ee", 0, 1), None);
    assert_eq!(dict.encoded_at(b"d1:ai1ee", 0, 1), None);
    assert_eq!(dict.encoded_at(b"d1:ai1e1:bi2e1:ci3ee", 0, 1), None);
    assert_eq!(dict.encoded_at(b"d1:ai1e1:bi2e", 0, 1), None);
    assert_eq!(dict.encoded_at(b"d1:ai1e1:be", 0, 1), None);
    assert_eq!(dict.encoded_at(b"l1:ai1e1:bi2ee", 0, 1), None);
}
