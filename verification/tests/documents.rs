use torrent_core::meta_info::{info_hash, MetaInfo, Mode};
use torrent_core::parser::parse;
use torrent_core::syntax::{find_entry, is_well_formed};
use torrent_core::value::Value;

fn encode(value: &Value, out: &mut Vec<u8>) {
    match value {
        Value::Integer(n) => out.extend_from_slice(format!("i{}e", n).as_bytes()),
        Value::ByteString(bytes) => {
            out.extend_from_slice(format!("{}:", bytes.len()).as_bytes());
            out.extend_from_slice(bytes);
        }
        Value::List(items) => {
            out.push(b'l');
            for item in items {
                encode(item, out);
            }
            out.push(b'e');
        }
        Value::Dict(entries) => {
            out.push(b'd');
            for (key, value) in entries {
                out.extend_from_slice(format!("{}:", key.len()).as_bytes());
                out.extend_from_slice(key);
                encode(value, out);
            }
            out.push(b'e');
        }
    }
}

fn encoded(value: &Value) -> Vec<u8> {
    let mut out = Vec::new();
    encode(value, &mut out);
    out
}

fn dict(entries: Vec<(&str, Value)>) -> Value {
    Value::Dict(entries.into_iter().map(|(k, v)| (k.as_bytes().to_vec(), v)).collect())
}

fn text(s: &str) -> Value {
    Value::ByteString(s.as_bytes().to_vec())
}

fn every_byte_twice() -> Vec<u8> {
    let mut pieces: Vec<u8> = (0u8..=255).collect();
    pieces.extend((0u8..=255).rev());
    pieces.extend(b"0123456789:le".iter().cycle().take(8));
    pieces
}

fn torrent() -> Value {
    let file = |length: i64, path: Vec<&str>| {
        dict(vec![
            ("length", Value::Integer(length)),
            ("path", Value::List(path.into_iter().map(text).collect())),
        ])
    };
    dict(vec![
        ("announce", text("http://tracker.test:6969/announce?passkey=abc")),
        (
            "announce-list",
            Value::List(vec![
                Value::List(vec![text("http://tracker.test:6969/announce")]),
                Value::List(vec![text("udp://other.test:1337"), text("http://third.test/a")]),
            ]),
        ),
        ("comment", text("caf\u{e9} \u{1f600}")),
        ("created by", text("tester 1.0")),
        ("creation date", Value::Integer(1700000000)),
        (
            "info",
            dict(vec![
                (
                    "files",
                    Value::List(vec![
                        file(1 << 40, vec!["dir", "sub", "big.bin"]),
                        file(0, vec!["empty"]),
                        file(i64::MAX - (1 << 40), vec!["..a", "b.."]),
                    ]),
                ),
                ("name", text("sample")),
                ("piece length", Value::Integer(1 << 18)),
                ("pieces", Value::ByteString(every_byte_twice())),
                ("private", Value::Integer(1)),
                ("source", text("ignored by the decoder")),
            ]),
        ),
        ("url-list", Value::List(Vec::new())),
    ])
}

#[test]
fn a_written_tree_reads_back_the_same() {
    let trees = vec![
        Value::Integer(0),
        Value::Integer(i64::MIN),
        Value::Integer(i64::MAX),
        text(""),
        Value::ByteString(every_byte_twice()),
        Value::List(Vec::new()),
        Value::Dict(Vec::new()),
        Value::List(vec![Value::List(vec![Value::Dict(vec![(Vec::new(), Value::List(Vec::new()))])])]),
        torrent(),
    ];
    for tree in trees {
        let doc = encoded(&tree);
        assert!(is_well_formed(&doc));
        assert_eq!(parse(&doc), Ok(tree.clone()));
        assert_eq!(tree.encoded_at(&doc, 0, 64), Some(doc.len()));
    }
}

#[test]
fn a_whole_torrent_is_decoded() {
    let doc = encoded(&torrent());
    let meta = MetaInfo::from_bytes(&doc).unwrap();
    assert_eq!(meta.announce, "http://tracker.test:6969/announce?passkey=abc");
    assert_eq!(meta.comment, Some("caf\u{e9} \u{1f600}".to_string()));
    assert_eq!(meta.created_by, Some("tester 1.0".to_string()));
    assert_eq!(meta.creation_date, Some(1700000000));
    assert_eq!(meta.encoding, None);
    assert_eq!(meta.info.name, "sample");
    assert_eq!(meta.info.piece_length, 1 << 18);
    assert_eq!(meta.info.pieces, every_byte_twice());
    assert_eq!(meta.info.private, Some(1));
    match &meta.info.mode {
        Mode::Multiple(multi) => {
            assert_eq!(multi.files().len(), 3);
            assert_eq!(multi.files()[0].length(), 1 << 40);
            assert_eq!(
                multi.files()[0].path(),
                &vec!["dir".to_string(), "sub".to_string(), "big.bin".to_string()]
            );
            assert_eq!(multi.files()[2].path(), &vec!["..a".to_string(), "b..".to_string()]);
        }
        Mode::Single(_) => panic!("several files expected"),
    }
    assert_eq!(meta.info.total_length(), Some(i64::MAX as u64));
}

#[test]
fn the_hash_is_taken_of_the_info_bytes_alone() {
    let tree = torrent();
    let doc = encoded(&tree);
    let info = tree.get(b"info").unwrap();
    let (start, end) = find_entry(&doc, b"info").unwrap();
    assert_eq!(&doc[start..end], &encoded(info)[..]);
    let meta = MetaInfo::from_bytes(&doc).unwrap();
    assert_eq!(Some(meta.hash.clone()), info_hash(&doc));
    assert_eq!(meta.hash, MetaInfo::from_bencode(&tree, &doc[start..end]).unwrap().hash);
    // A change outside the info bytes leaves the hash as it is.
    let mut other = torrent();
    if let Value::Dict(entries) = &mut other {
        entries[2].1 = text("another comment");
        entries.push((b"zzz".to_vec(), Value::Integer(9)));
    }
    assert_eq!(MetaInfo::from_bytes(&encoded(&other)).unwrap().hash, meta.hash);
    // A change inside them changes it.
    let mut changed = torrent();
    if let Value::Dict(entries) = &mut changed {
        if let Value::Dict(info) = &mut entries[5].1 {
            info.push((b"x".to_vec(), Value::Integer(1)));
        }
    }
    let changed = MetaInfo::from_bytes(&encoded(&changed)).unwrap();
    assert_eq!(changed.info, meta.info);
    assert_ne!(changed.hash, meta.hash);
}

#[test]
fn total_length_that_does_not_fit_is_none() {
    let mut tree = torrent();
    if let Value::Dict(entries) = &mut tree {
        if let Value::Dict(info) = &mut entries[5].1 {
            let mut files = Vec::new();
            for _ in 0..3 {
                files.push(dict(vec![
                    ("length", Value::Integer(i64::MAX)),
                    ("path", Value::List(vec![text("f")])),
                ]));
            }
            info[0].1 = Value::List(files);
        }
    }
    let meta = MetaInfo::from_bytes(&encoded(&tree)).unwrap();
    assert_eq!(meta.info.total_length(), None);
    let mut tree = torrent();
    if let Value::Dict(entries) = &mut tree {
        if let Value::Dict(info) = &mut entries[5].1 {
            let mut files = Vec::new();
            for _ in 0..2 {
                files.push(dict(vec![
                    ("length", Value::Integer(i64::MAX)),
                    ("path", Value::List(vec![text("f")])),
                ]));
            }
            info[0].1 = Value::List(files);
        }
    }
    let meta = MetaInfo::from_bytes(&encoded(&tree)).unwrap();
    assert_eq!(meta.info.total_length(), Some(u64::MAX - 1));
}
