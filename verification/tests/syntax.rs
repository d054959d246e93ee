use torrent_core::syntax::{
    digit, find_entry, is_well_formed, scan_digits, scan_integer, scan_string, scan_value,
    MAX_DEPTH,
};

#[test]
fn digits_are_told_from_other_bytes() {
    assert!(digit(b'0') && digit(b'5') && digit(b'9'));
    assert!(!digit(b'/') && !digit(b':') && !digit(b'a') && !digit(0));
}

#[test]
fn digit_runs_end_at_the_first_other_byte() {
    assert_eq!(scan_digits(b"123:x", 0), 3);
    assert_eq!(scan_digits(b"123:x", 1), 3);
    assert_eq!(scan_digits(b"123:x", 3), 3);
    assert_eq!(scan_digits(b"123", 0), 3);
    assert_eq!(scan_digits(b"123", 3), 3);
    assert_eq!(scan_digits(b"", 0), 0);
    assert_eq!(scan_digits(b"12", 5), 5);
}

#[test]
fn integers_end_behind_their_e() {
    assert_eq!(scan_integer(b"i0e", 0), Some(3));
    assert_eq!(scan_integer(b"i-0e", 0), Some(4));
    assert_eq!(scan_integer(b"i-12e", 0), Some(5));
    assert_eq!(scan_integer(b"xxi42ei1e", 2), Some(6));
    assert_eq!(scan_integer(b"i9223372036854775807e", 0), Some(21));
    assert_eq!(scan_integer(b"i-9223372036854775808e", 0), Some(22));
}

#[test]
fn integers_that_are_no_integers() {
    assert_eq!(scan_integer(b"i", 0), None);
    assert_eq!(scan_integer(b"", 0), None);
    assert_eq!(scan_integer(b"i1e", 3), None);
    assert_eq!(scan_integer(b"i1e", 1), None);
    assert_eq!(scan_integer(b"1:x", 0), None);
    assert_eq!(scan_integer(b"ie", 0), None);
    assert_eq!(scan_integer(b"i-e", 0), None);
    assert_eq!(scan_integer(b"i12", 0), None);
    assert_eq!(scan_integer(b"i1x", 0), None);
    assert_eq!(scan_integer(b"i01e", 0), None);
    assert_eq!(scan_integer(b"i00e", 0), None);
    assert_eq!(scan_integer(b"i-01e", 0), None);
    assert_eq!(scan_integer(b"i--1e", 0), None);
    assert_eq!(scan_integer(b"i+1e", 0), None);
    assert_eq!(scan_integer(b"i9223372036854775808e", 0), None);
    assert_eq!(scan_integer(b"i-9223372036854775809e", 0), None);
}

#[test]
fn byte_strings_end_behind_their_content() {
    assert_eq!(scan_string(b"0:", 0), Some((2, 2)));
    assert_eq!(scan_string(b"4:spam", 0), Some((2, 6)));
    assert_eq!(scan_string(b"4:spamx", 0), Some((2, 6)));
    assert_eq!(scan_string(b"004:spam", 0), Some((4, 8)));
    assert_eq!(scan_string(b"le11:hello world", 2), Some((5, 16)));
}

#[test]
fn byte_strings_that_are_no_byte_strings() {
    assert_eq!(scan_string(b"4:spa", 0), None);
    assert_eq!(scan_string(b"", 0), None);
    assert_eq!(scan_string(b"1:x", 3), None);
    assert_eq!(scan_string(b"1:x", 9), None);
    assert_eq!(scan_string(b"4", 0), None);
    assert_eq!(scan_string(b"4spam", 0), None);
    assert_eq!(scan_string(b":spam", 0), None);
    assert_eq!(scan_string(b"-1:x", 0), None);
    assert_eq!(scan_string(b"9223372036854775808:x", 0), None);
    assert_eq!(scan_string(b"18446744073709551616:x", 0), None);
    assert_eq!(scan_string(b"99999999999999999999999999:x", 0), None);
}

#[test]
fn values_end_where_they_end() {
    assert_eq!(scan_value(b"i1e", 0, 0), Some(3));
    assert_eq!(scan_value(b"1:x", 0, 0), Some(3));
    assert_eq!(scan_value(b"le", 0, 1), Some(2));
    assert_eq!(scan_value(b"de", 0, 1), Some(2));
    assert_eq!(scan_value(b"li1e1:xlee", 0, 2), Some(10));
    assert_eq!(scan_value(b"d1:ai1e1:bd1:clleeee", 0, 4), Some(20));
    assert_eq!(scan_value(b"i1ei2e", 3, 0), Some(6));
    assert_eq!(scan_value(b"i1e", 3, 5), None);
    assert_eq!(scan_value(b"i1e", 7, 5), None);
}

#[test]
fn values_that_are_no_values() {
    assert_eq!(scan_value(b"", 0, 5), None);
    assert_eq!(scan_value(b"e", 0, 5), None);
    assert_eq!(scan_value(b"x", 0, 5), None);
    assert_eq!(scan_value(b"l", 0, 5), None);
    assert_eq!(scan_value(b"d", 0, 5), None);
    assert_eq!(scan_value(b"li1e", 0, 5), None);
    assert_eq!(scan_value(b"d1:a", 0, 5), None);
    assert_eq!(scan_value(b"d1:ae", 0, 5), None);
    assert_eq!(scan_value(b"di1e1:ae", 0, 5), None);
    assert_eq!(scan_value(b"dlei1ee", 0, 5), None);
    assert_eq!(scan_value(b"lxe", 0, 5), None);
}

#[test]
fn nesting_is_held_to_the_depth() {
    assert_eq!(scan_value(b"le", 0, 0), None);
    assert_eq!(scan_value(b"de", 0, 0), None);
    assert_eq!(scan_value(b"llee", 0, 1), None);
    assert_eq!(scan_value(b"llee", 0, 2), Some(4));
    assert_eq!(scan_value(b"d1:alee", 0, 1), None);
    assert_eq!(scan_value(b"d1:alee", 0, 2), Some(7));
    let mut deep = vec![b'l'; MAX_DEPTH];
    deep.extend(vec![b'e'; MAX_DEPTH]);
    assert!(is_well_formed(&deep));
    let mut deeper = vec![b'l'; MAX_DEPTH + 1];
    deeper.extend(vec![b'e'; MAX_DEPTH + 1]);
    assert!(!is_well_formed(&deeper));
}

#[test]
fn a_document_is_one_whole_value() {
    assert!(is_well_formed(b"i0e"));
    assert!(is_well_formed(b"0:"));
    assert!(is_well_formed(b"d3:cow3:moo4:spam4:eggse"));
    assert!(is_well_formed(b"d1:b0:1:a0:e"));
    assert!(is_well_formed(b"d1:a0:1:a0:e"));
    assert!(!is_well_formed(b""));
    assert!(!is_well_formed(b"i0ei0e"));
    assert!(!is_well_formed(b"i0e "));
    assert!(!is_well_formed(b" i0e"));
    assert!(!is_well_formed(b"d3:cow3:moo4:spam4:eggs"));
    assert!(!is_well_formed(b"5:spam"));
}

#[test]
fn entry_of_a_document_is_found_by_its_key() {
    let doc = b"d1:ai1e4:infod1:xi2ee1:z0:e";
    assert_eq!(find_entry(doc, b"a"), Some((4, 7)));
    assert_eq!(find_entry(doc, b"info"), Some((13, 21)));
    assert_eq!(&doc[13..21], b"d1:xi2ee");
    assert_eq!(find_entry(doc, b"z"), Some((24, 26)));
    assert_eq!(find_entry(doc, b"x"), None);
    assert_eq!(find_entry(doc, b"inf"), None);
    assert_eq!(find_entry(doc, b""), None);
    assert_eq!(find_entry(b"d0:i1ee", b""), Some((3, 6)));
}

#[test]
fn entry_of_a_repeated_key_is_the_last() {
    let doc = b"d1:ki1e1:ki22e1:xi3ee";
    assert_eq!(find_entry(doc, b"k"), Some((10, 14)));
    assert_eq!(&doc[10..14], b"i22e");
}

#[test]
fn entries_exist_in_well_formed_dictionaries_only() {
    assert_eq!(find_entry(b"l1:ai1ee", b"a"), None);
    assert_eq!(find_entry(b"i1e", b"a"), None);
    assert_eq!(find_entry(b"", b"a"), None);
    assert_eq!(find_entry(b"d1:ai1e", b"a"), None);
    assert_eq!(find_entry(b"d1:ai1e1:b", b"a"), None);
    assert_eq!(find_entry(b"de", b"a"), None);
}
