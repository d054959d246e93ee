use torrent_core::decoder_helper::{DecodingError, NumberDetail, ParseDetail, StringDetail};
use torrent_core::meta_info::{info_hash, Info, MetaInfo, Mode, SingleFile};
use torrent_core::parser::parse;
use torrent_core::value::Value;

const EXAMPLE: &[u8] = b"d8:announce19:http://tracker.test4:infod6:lengthi11e4:name8:file.txt12:piece lengthi16384e6:pieces20:AAAAAAAAAAAAAAAAAAAAee";

const EXAMPLE_INFO: &[u8] =
    b"d6:lengthi11e4:name8:file.txt12:piece lengthi16384e6:pieces20:AAAAAAAAAAAAAAAAAAAAe";

fn hex(bytes: &[u8]) -> String {
    let mut out = String::new();
    for b in bytes {
        out.push_str(&format!("{:02x}", b));
    }
    out
}

fn dict(entries: Vec<(&str, Value)>) -> Value {
    Value::Dict(entries.into_iter().map(|(k, v)| (k.as_bytes().to_vec(), v)).collect())
}

fn text(s: &str) -> Value {
    Value::ByteString(s.as_bytes().to_vec())
}

fn single_info() -> Vec<(&'static str, Value)> {
    vec![
        ("length", Value::Integer(11)),
        ("name", text("file.txt")),
        ("piece length", Value::Integer(16384)),
        ("pieces", Value::ByteString(vec![b'A'; 20])),
    ]
}

#[test]
fn decodes_the_example_document() {
    let meta = MetaInfo::from_bytes(EXAMPLE).unwrap();
    assert_eq!(meta.announce, "http://tracker.test");
    assert_eq!(meta.info.mode, Mode::Single(SingleFile { length: 11, md5sum: None }));
    assert_eq!(meta.info.name, "file.txt");
    assert_eq!(meta.info.piece_length, 16384);
    assert_eq!(meta.info.pieces.len(), 20);
    assert_eq!(meta.info.private, None);
    assert_eq!(meta.created_by, None);
    assert_eq!(meta.creation_date, None);
    assert_eq!(meta.comment, None);
    assert_eq!(meta.encoding, None);
    assert_eq!(meta.hash.len(), 20);
}

#[test]
fn hash_is_sha1_of_the_info_bytes_as_written() {
    // SHA-1 of the empty message, a fixed point of every SHA-1.
    assert_eq!(
        hex(&MetaInfo::from_bencode(&dict(vec![("announce", text("a")), ("info", dict(single_info()))]), b"").unwrap().hash),
        "da39a3ee5e6b4b0d3255bfef95601890afd80709"
    );
    // SHA-1 of "abc".
    assert_eq!(
        hex(&MetaInfo::from_bencode(&dict(vec![("announce", text("a")), ("info", dict(single_info()))]), b"abc").unwrap().hash),
        "a9993e364706816aba3e25717850c26c9cd0d89d"
    );
    let meta = MetaInfo::from_bytes(EXAMPLE).unwrap();
    let tree = parse(EXAMPLE).unwrap();
    assert_eq!(meta, MetaInfo::from_bencode(&tree, EXAMPLE_INFO).unwrap());
    assert_eq!(hex(&meta.hash), "7e4a5ac4a63735c78f5f5510d75e5e705176b8ae");
}

#[test]
fn hash_is_the_same_each_time() {
    let first = info_hash(EXAMPLE).unwrap();
    let second = info_hash(EXAMPLE).unwrap();
    assert_eq!(first, second);
    assert_eq!(first, MetaInfo::from_bytes(EXAMPLE).unwrap().hash);
    assert_eq!(first.len(), 20);
}

#[test]
fn hash_follows_the_bytes_not_the_values() {
    // The same values, with the keys of the info dictionary in another order.
    let reordered: &[u8] = b"d8:announce19:http://tracker.test4:infod4:name8:file.txt6:lengthi11e12:piece lengthi16384e6:pieces20:AAAAAAAAAAAAAAAAAAAAee";
    let a = MetaInfo::from_bytes(EXAMPLE).unwrap();
    let b = MetaInfo::from_bytes(reordered).unwrap();
    assert_eq!(a.info, b.info);
    assert_ne!(a.hash, b.hash);
}

#[test]
fn info_hash_needs_an_info_key() {
    assert_eq!(info_hash(b"d8:announce1:ae"), None);
    assert_eq!(info_hash(b"li1ee"), None);
    assert_eq!(info_hash(b"d4:info"), None);
}

#[test]
fn pieces_must_hold_whole_digests() {
    let mut fields = single_info();
    fields[3] = ("pieces", Value::ByteString(vec![b'A'; 21]));
    assert_eq!(
        Info::from_bencode(&dict(fields)),
        Err(DecodingError::NotAString(StringDetail::InvalidLength(21)))
    );
    let mut fields = single_info();
    fields[3] = ("pieces", Value::ByteString(Vec::new()));
    assert_eq!(Info::from_bencode(&dict(fields)).unwrap().pieces.len(), 0);
}

#[test]
fn piece_length_must_be_positive() {
    let mut fields = single_info();
    fields[2] = ("piece length", Value::Integer(0));
    assert_eq!(
        Info::from_bencode(&dict(fields)),
        Err(DecodingError::NotANumber(NumberDetail::OutOfRange(0)))
    );
}

#[test]
fn single_file_length_must_not_be_negative() {
    let mut fields = single_info();
    fields[0] = ("length", Value::Integer(-1));
    assert_eq!(
        Info::from_bencode(&dict(fields)),
        Err(DecodingError::NotANumber(NumberDetail::OutOfRange(-1)))
    );
}

#[test]
fn length_takes_precedence_over_files() {
    let file = dict(vec![("length", Value::Integer(3)), ("path", Value::List(vec![text("a")]))]);
    let mut fields = single_info();
    fields.push(("files", Value::List(vec![file])));
    let info = Info::from_bencode(&dict(fields)).unwrap();
    assert_eq!(info.mode, Mode::Single(SingleFile { length: 11, md5sum: None }));
}

#[test]
fn neither_length_nor_files_is_unsupported() {
    let fields: Vec<(&str, Value)> = single_info().into_iter().skip(1).collect();
    assert_eq!(Info::from_bencode(&dict(fields)), Err(DecodingError::UnsupportedMode));
    assert_eq!(Info::from_bencode(&dict(Vec::new())), Err(DecodingError::UnsupportedMode));
}

#[test]
fn invalid_files_are_unsupported() {
    let rest: Vec<(&str, Value)> = single_info().into_iter().skip(1).collect();
    let with_files = |files: Value| {
        let mut fields = rest.clone();
        fields.push(("files", files));
        Info::from_bencode(&dict(fields))
    };
    assert_eq!(with_files(Value::List(Vec::new())), Err(DecodingError::UnsupportedMode));
    assert_eq!(with_files(Value::Integer(1)), Err(DecodingError::UnsupportedMode));
    let no_path = dict(vec![("length", Value::Integer(3))]);
    assert_eq!(with_files(Value::List(vec![no_path])), Err(DecodingError::UnsupportedMode));
    let parent = dict(vec![
        ("length", Value::Integer(3)),
        ("path", Value::List(vec![text(".."), text("a")])),
    ]);
    assert_eq!(with_files(Value::List(vec![parent])), Err(DecodingError::UnsupportedMode));
    let empty_segment =
        dict(vec![("length", Value::Integer(3)), ("path", Value::List(vec![text("")]))]);
    assert_eq!(with_files(Value::List(vec![empty_segment])), Err(DecodingError::UnsupportedMode));
    let empty_path =
        dict(vec![("length", Value::Integer(3)), ("path", Value::List(Vec::new()))]);
    assert_eq!(with_files(Value::List(vec![empty_path])), Err(DecodingError::UnsupportedMode));
    let negative = dict(vec![
        ("length", Value::Integer(-3)),
        ("path", Value::List(vec![text("a")])),
    ]);
    assert_eq!(with_files(Value::List(vec![negative])), Err(DecodingError::UnsupportedMode));
    let bad_sum = dict(vec![
        ("length", Value::Integer(3)),
        ("md5sum", Value::Integer(0)),
        ("path", Value::List(vec![text("a")])),
    ]);
    assert_eq!(with_files(Value::List(vec![bad_sum])), Err(DecodingError::UnsupportedMode));
}

#[test]
fn decodes_several_files() {
    let doc: &[u8] = b"d8:announce3:x:y4:infod5:filesld6:lengthi5e6:md5sum3:abc4:pathl3:dir5:a.txteed6:lengthi7e4:pathl5:b.txteee4:name4:root12:piece lengthi4e6:pieces0:ee";
    let meta = MetaInfo::from_bytes(doc).unwrap();
    match &meta.info.mode {
        Mode::Multiple(multi) => {
            let files = multi.files();
            assert_eq!(files.len(), 2);
            assert_eq!(files[0].length(), 5);
            assert_eq!(files[0].md5sum(), &Some("abc".to_string()));
            assert_eq!(files[0].path(), &vec!["dir".to_string(), "a.txt".to_string()]);
            assert_eq!(files[1].length(), 7);
            assert_eq!(files[1].md5sum(), &None);
            assert_eq!(files[1].path(), &vec!["b.txt".to_string()]);
        }
        Mode::Single(_) => panic!("several files expected"),
    }
    assert_eq!(meta.info.name, "root");
}

#[test]
fn malformed_optional_field_fails() {
    let doc: &[u8] = b"d8:announce19:http://tracker.test7:commenti7e4:infod6:lengthi11e4:name8:file.txt12:piece lengthi16384e6:pieces20:AAAAAAAAAAAAAAAAAAAAee";
    assert_eq!(
        MetaInfo::from_bytes(doc),
        Err(DecodingError::NotAString(StringDetail::InvalidType))
    );
    let doc: &[u8] = b"d8:announce19:http://tracker.test13:creation date3:now4:infod6:lengthi11e4:name8:file.txt12:piece lengthi16384e6:pieces20:AAAAAAAAAAAAAAAAAAAAee";
    assert_eq!(
        MetaInfo::from_bytes(doc),
        Err(DecodingError::NotANumber(NumberDetail::InvalidType))
    );
    let mut fields = single_info();
    fields.push(("private", text("yes")));
    assert_eq!(
        Info::from_bencode(&dict(fields)),
        Err(DecodingError::NotANumber(NumberDetail::InvalidType))
    );
    let mut fields = single_info();
    fields.push(("md5sum", Value::Integer(5)));
    assert_eq!(
        Info::from_bencode(&dict(fields)),
        Err(DecodingError::NotAString(StringDetail::InvalidType))
    );
}

#[test]
fn optional_fields_are_read_when_present() {
    let doc: &[u8] = b"d8:announce19:http://tracker.test7:comment2:hi10:created by2:me13:creation datei1700000000e8:encoding5:UTF-84:infod6:lengthi11e6:md5sum4:abcd4:name8:file.txt12:piece lengthi16384e6:pieces20:AAAAAAAAAAAAAAAAAAAA7:privatei1eee";
    let meta = MetaInfo::from_bytes(doc).unwrap();
    assert_eq!(meta.comment, Some("hi".to_string()));
    assert_eq!(meta.created_by, Some("me".to_string()));
    assert_eq!(meta.creation_date, Some(1700000000));
    assert_eq!(meta.encoding, Some("UTF-8".to_string()));
    assert_eq!(meta.info.private, Some(1));
    assert_eq!(
        meta.info.mode,
        Mode::Single(SingleFile { length: 11, md5sum: Some("abcd".to_string()) })
    );
}

#[test]
fn missing_required_fields_are_named() {
    assert_eq!(
        MetaInfo::from_bytes(b"d4:infod6:lengthi1eee"),
        Err(DecodingError::MissingField("announce".to_string()))
    );
    assert_eq!(
        MetaInfo::from_bytes(b"d8:announce1:ae"),
        Err(DecodingError::MissingField("info".to_string()))
    );
    assert_eq!(
        Info::from_bencode(&dict(vec![("length", Value::Integer(1))])),
        Err(DecodingError::MissingField("name".to_string()))
    );
    assert_eq!(
        Info::from_bencode(&dict(vec![("length", Value::Integer(1)), ("name", text("n"))])),
        Err(DecodingError::MissingField("piece length".to_string()))
    );
    assert_eq!(
        Info::from_bencode(&dict(vec![
            ("length", Value::Integer(1)),
            ("name", text("n")),
            ("piece length", Value::Integer(1)),
        ])),
        Err(DecodingError::MissingField("pieces".to_string()))
    );
}

#[test]
fn wrong_shapes_are_told_apart() {
    assert_eq!(MetaInfo::from_bytes(b"i1e"), Err(DecodingError::NotADict));
    assert_eq!(Info::from_bencode(&Value::List(Vec::new())), Err(DecodingError::NotADict));
    assert_eq!(
        MetaInfo::from_bytes(b"d8:announcei1ee"),
        Err(DecodingError::NotAString(StringDetail::InvalidType))
    );
    assert_eq!(
        MetaInfo::from_bytes(b"d8:announce2:\xff\xfee"),
        Err(DecodingError::NotAString(StringDetail::InvalidUtf8))
    );
    assert_eq!(
        MetaInfo::from_bytes(b"d8:announce1:a4:infoi1ee"),
        Err(DecodingError::NotADict)
    );
    assert_eq!(
        MetaInfo::from_bytes(b"d8:announce"),
        Err(DecodingError::ParseError(ParseDetail::Malformed))
    );
    assert_eq!(MetaInfo::from_bytes(b""), Err(DecodingError::ParseError(ParseDetail::Malformed)));
}

#[test]
fn private_is_a_small_number() {
    let mut fields = single_info();
    fields.push(("private", Value::Integer(256)));
    assert_eq!(
        Info::from_bencode(&dict(fields)),
        Err(DecodingError::NotANumber(NumberDetail::OutOfRange(256)))
    );
    let mut fields = single_info();
    fields.push(("private", Value::Integer(255)));
    assert_eq!(Info::from_bencode(&dict(fields)).unwrap().private, Some(255));
}

#[test]
fn a_repeated_key_counts_where_it_stands_last() {
    let doc: &[u8] = b"d8:announce1:a8:announce1:b4:infod6:lengthi1e4:name1:n12:piece lengthi1e6:pieces0:e4:infod6:lengthi2e4:name1:n12:piece lengthi1e6:pieces0:ee";
    let meta = MetaInfo::from_bytes(doc).unwrap();
    assert_eq!(meta.announce, "b");
    assert_eq!(meta.info.mode, Mode::Single(SingleFile { length: 2, md5sum: None }));
    let last: &[u8] = b"d6:lengthi2e4:name1:n12:piece lengthi1e6:pieces0:e";
    let tree = parse(doc).unwrap();
    assert_eq!(meta.hash, MetaInfo::from_bencode(&tree, last).unwrap().hash);
}
