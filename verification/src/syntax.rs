//! The byte-level shape of bencoded documents.
//!
//! Nothing here builds values. The functions of this module only say, and
//! compute, where an encoded value ends, whether a document is one complete
//! value, and which bytes of a dictionary document hold the value of a key.
//! The values themselves are read by the streaming parser of the `bencode`
//! crate, which is only ever run on documents that passed
//! [`is_well_formed`].

use crate::value::bytes_equal;
use vstd::prelude::*;
use vstd::slice::slice_subrange;

verus! {

/// The deepest nesting of lists and dictionaries that a document may have.
pub const MAX_DEPTH: usize = 64;

/// The longest document, in bytes, that is accepted.
pub const MAX_DOCUMENT_LEN: usize = 0xFFFF_FFFF;

/// The largest magnitude of a non-negative encoded integer.
pub const MAX_POSITIVE: u64 = 0x7FFF_FFFF_FFFF_FFFF;

/// The largest magnitude of a negative encoded integer.
pub const MAX_NEGATIVE: u64 = 0x8000_0000_0000_0000;

/// The byte `-`.
pub const MINUS: u8 = 0x2d;

/// The byte `0`.
pub const ZERO: u8 = 0x30;

/// The byte `:`.
pub const COLON: u8 = 0x3a;

/// The byte `d`, which opens a dictionary.
pub const DICT: u8 = 0x64;

/// The byte `e`, which closes an integer, a list or a dictionary.
pub const END: u8 = 0x65;

/// The byte `i`, which opens an integer.
pub const INT: u8 = 0x69;

/// The byte `l`, which opens a list.
pub const LIST: u8 = 0x6c;

/// Whether `b` is an ASCII decimal digit.
pub open spec fn is_digit(b: u8) -> bool {
    0x30 <= b <= 0x39
}

/// The index just past the run of digits that starts at `at`
/// (`at` itself where no digit stands there).
pub open spec fn digits_end(s: Seq<u8>, at: int) -> int
    decreases s.len() - at,
{
    if 0 <= at < s.len() && is_digit(s[at]) {
        digits_end(s, at + 1)
    } else {
        at
    }
}

/// The number that the digits `s[from..to]` write in base ten.
pub open spec fn decimal(s: Seq<u8>, from: int, to: int) -> int
    decreases to - from,
{
    if to <= from {
        0
    } else {
        decimal(s, from, to - 1) * 10 + (s[to - 1] - ZERO)
    }
}

/// The index just past the integer `i<number>e` that starts at `at`.
///
/// The number is an optional `-` followed by `0` or by digits that do not
/// start with `0`, and it fits in 64 bits with sign.
pub open spec fn integer_end(s: Seq<u8>, at: int) -> Option<int> {
    let negative = 0 <= at + 1 < s.len() && s[at + 1] == MINUS;
    let first = if negative { at + 2 } else { at + 1 };
    let last = digits_end(s, first);
    let magnitude = decimal(s, first, last);
    if 0 <= at < s.len() && s[at] == INT && first < last < s.len() && s[last] == END && (s[first]
        == ZERO ==> last == first + 1) && magnitude <= (if negative {
        MAX_NEGATIVE
    } else {
        MAX_POSITIVE
    }) {
        Some(last + 1)
    } else {
        None
    }
}

/// The number that the integer `i<number>e` that starts at `at` writes.
pub open spec fn integer_value(s: Seq<u8>, at: int) -> int {
    let negative = 0 <= at + 1 < s.len() && s[at + 1] == MINUS;
    let first = if negative { at + 2 } else { at + 1 };
    let magnitude = decimal(s, first, digits_end(s, first));
    if negative {
        -magnitude
    } else {
        magnitude
    }
}

/// The index of the first content byte of the byte string `<length>:<bytes>`
/// that starts at `at`.
pub open spec fn string_start(s: Seq<u8>, at: int) -> int {
    digits_end(s, at) + 1
}

/// The index just past the byte string `<length>:<bytes>` that starts at `at`.
///
/// The length is one or more digits, and that many bytes follow the colon.
pub open spec fn string_end(s: Seq<u8>, at: int) -> Option<int> {
    let colon = digits_end(s, at);
    let length = decimal(s, at, colon);
    if 0 <= at < colon < s.len() && s[colon] == COLON && length <= MAX_POSITIVE && colon + 1
        + length <= s.len() {
        Some(colon + 1 + length)
    } else {
        None
    }
}

/// The content of the byte string that starts at `at`.
pub open spec fn string_content(s: Seq<u8>, at: int) -> Seq<u8>
    recommends
        string_end(s, at) is Some,
{
    s.subrange(string_start(s, at), string_end(s, at).unwrap())
}

/// The index just past the value that starts at `at`, where lists and
/// dictionaries may nest `depth` deep below it.
pub open spec fn value_end(s: Seq<u8>, at: int, depth: nat) -> Option<int>
    decreases depth, s.len() - at, 0int,
{
    if !(0 <= at < s.len()) {
        None
    } else if s[at] == INT {
        integer_end(s, at)
    } else if is_digit(s[at]) {
        string_end(s, at)
    } else if s[at] == LIST && depth > 0 {
        list_end(s, at + 1, (depth - 1) as nat)
    } else if s[at] == DICT && depth > 0 {
        dict_end(s, at + 1, (depth - 1) as nat)
    } else {
        None
    }
}

/// The index just past the `e` that closes a list, where `at` is the place of
/// its next item or of that `e`.
pub open spec fn list_end(s: Seq<u8>, at: int, depth: nat) -> Option<int>
    decreases depth, s.len() - at, 1int,
{
    if !(0 <= at < s.len()) {
        None
    } else if s[at] == END {
        Some(at + 1)
    } else {
        match value_end(s, at, depth) {
            Some(next) if at < next <= s.len() => list_end(s, next, depth),
            _ => None,
        }
    }
}

/// The index just past the `e` that closes a dictionary, where `at` is the
/// place of its next key or of that `e`.
pub open spec fn dict_end(s: Seq<u8>, at: int, depth: nat) -> Option<int>
    decreases depth, s.len() - at, 1int,
{
    if !(0 <= at < s.len()) {
        None
    } else if s[at] == END {
        Some(at + 1)
    } else if !is_digit(s[at]) {
        None
    } else {
        match string_end(s, at) {
            Some(value) if at < value <= s.len() => match value_end(s, value, depth) {
                Some(next) if value < next <= s.len() => dict_end(s, next, depth),
                _ => None,
            },
            _ => None,
        }
    }
}

/// A document is well formed when it is exactly one value, no longer than
/// [`MAX_DOCUMENT_LEN`] and nested no deeper than [`MAX_DEPTH`].
pub open spec fn well_formed(s: Seq<u8>) -> bool {
    s.len() <= MAX_DOCUMENT_LEN && value_end(s, 0, MAX_DEPTH as nat) == Some(s.len() as int)
}

/// The byte range `(start, end)` that holds the value of `key` among the
/// dictionary entries that start at `at`. Where the key is written more than
/// once, the last entry counts.
pub open spec fn entry_span(s: Seq<u8>, at: int, depth: nat, key: Seq<u8>) -> Option<(int, int)>
    decreases s.len() - at,
{
    if !(0 <= at < s.len()) || !is_digit(s[at]) {
        None
    } else {
        match string_end(s, at) {
            Some(value) if at < value <= s.len() => match value_end(s, value, depth) {
                Some(next) if value < next <= s.len() => {
                    let later = entry_span(s, next, depth, key);
                    if later is Some {
                        later
                    } else if string_content(s, at) == key {
                        Some((value, next))
                    } else {
                        None
                    }
                },
                _ => None,
            },
            _ => None,
        }
    }
}

/// The byte range `(start, end)` of the value that a well-formed dictionary
/// document gives to `key`.
pub open spec fn document_entry(s: Seq<u8>, key: Seq<u8>) -> Option<(int, int)> {
    if well_formed(s) && s[0] == DICT {
        entry_span(s, 1, (MAX_DEPTH - 1) as nat, key)
    } else {
        None
    }
}

/// Tests whether a byte is an ASCII decimal digit.
pub fn digit(b: u8) -> (r: bool)
    ensures
        r == is_digit(b),
{
    0x30 <= b && b <= 0x39
}

/// A longer run of digits writes a number that is at least as large.
pub proof fn lemma_decimal_grows(s: Seq<u8>, from: int, mid: int, to: int)
    requires
        0 <= from <= mid <= to <= s.len(),
        forall|i: int| from <= i < to ==> is_digit(#[trigger] s[i]),
    ensures
        0 <= decimal(s, from, mid) <= decimal(s, from, to),
    decreases to - from,
{
    if mid < to {
        lemma_decimal_grows(s, from, mid, to - 1);
    } else if from < mid {
        lemma_decimal_grows(s, from, mid - 1, to - 1);
    }
}

/// Finds the end of the run of digits that starts at `at`.
pub fn scan_digits(s: &[u8], at: usize) -> (end: usize)
    ensures
        end == digits_end(s@, at as int),
        at <= end,
        at <= s.len() ==> end <= s.len(),
        forall|i: int| at <= i < end ==> is_digit(#[trigger] s@[i]),
{
    let mut i: usize = at;
    while i < s.len() && digit(s[i])
        invariant
            at <= i,
            at <= s.len() ==> i <= s.len(),
            digits_end(s@, at as int) == digits_end(s@, i as int),
            forall|k: int| at <= k < i ==> is_digit(#[trigger] s@[k]),
        decreases s.len() - i,
    {
        i += 1;
    }
    i
}

/// Reads the digits `s[from..to]` as a number, unless it is over `limit`.
fn scan_decimal(s: &[u8], from: usize, to: usize, limit: u64) -> (r: Option<u64>)
    requires
        from <= to <= s.len(),
        forall|i: int| from <= i < to ==> is_digit(#[trigger] s@[i]),
        limit >= 9,
    ensures
        r matches Some(v) ==> v == decimal(s@, from as int, to as int) && v <= limit,
        r is None ==> decimal(s@, from as int, to as int) > limit,
{
    let mut acc: u64 = 0;
    let mut i: usize = from;
    while i < to
        invariant
            from <= i <= to <= s.len(),
            forall|k: int| from <= k < to ==> is_digit(#[trigger] s@[k]),
            acc == decimal(s@, from as int, i as int),
            acc <= limit,
            limit >= 9,
        decreases to - i,
    {
        assert(is_digit(s@[i as int]));
        let d: u64 = (s[i] - ZERO) as u64;
        if acc > (limit - d) / 10 {
            proof {
                lemma_decimal_grows(s@, from as int, i + 1, to as int);
            }
            return None;
        }
        acc = acc * 10 + d;
        i += 1;
    }
    Some(acc)
}

/// Reads the integer that starts at `at`: its number and its end.
pub fn read_integer(s: &[u8], at: usize) -> (r: Option<(i64, usize)>)
    ensures
        r matches Some((number, end)) ==> integer_end(s@, at as int) == Some(end as int) && number
            == integer_value(s@, at as int) && at < end <= s.len(),
        r is None ==> integer_end(s@, at as int) is None,
{
    if at >= s.len() || s[at] != INT {
        return None;
    }
    let negative = at + 1 < s.len() && s[at + 1] == MINUS;
    let first: usize = if negative {
        at + 2
    } else {
        at + 1
    };
    let last = scan_digits(s, first);
    if last == first || last >= s.len() || s[last] != END {
        return None;
    }
    if s[first] == ZERO && last != first + 1 {
        return None;
    }
    let limit: u64 = if negative {
        MAX_NEGATIVE
    } else {
        MAX_POSITIVE
    };
    match scan_decimal(s, first, last, limit) {
        Some(magnitude) => {
            let number: i64 = if !negative {
                magnitude as i64
            } else if magnitude == MAX_NEGATIVE {
                i64::MIN
            } else {
                -(magnitude as i64)
            };
            Some((number, last + 1))
        },
        None => None,
    }
}

/// Finds the end of the integer that starts at `at`.
pub fn scan_integer(s: &[u8], at: usize) -> (r: Option<usize>)
    ensures
        r matches Some(end) ==> integer_end(s@, at as int) == Some(end as int) && at < end
            <= s.len(),
        r is None ==> integer_end(s@, at as int) is None,
{
    match read_integer(s, at) {
        Some((_, end)) => Some(end),
        None => None,
    }
}

/// Finds the content and the end of the byte string that starts at `at`:
/// `(start, end)` with the content in `s[start..end]`.
pub fn scan_string(s: &[u8], at: usize) -> (r: Option<(usize, usize)>)
    ensures
        r matches Some((start, end)) ==> string_end(s@, at as int) == Some(end as int) && start
            == string_start(s@, at as int) && at < start <= end <= s.len(),
        r is None ==> string_end(s@, at as int) is None,
{
    if at >= s.len() {
        return None;
    }
    let colon = scan_digits(s, at);
    if colon == at || colon >= s.len() || s[colon] != COLON {
        return None;
    }
    match scan_decimal(s, at, colon, MAX_POSITIVE) {
        Some(length) => {
            let room: usize = s.len() - colon - 1;
            if length > room as u64 {
                None
            } else {
                Some((colon + 1, colon + 1 + length as usize))
            }
        },
        None => None,
    }
}

/// Finds the end of the value that starts at `at`, where lists and
/// dictionaries may nest `depth` deep below it.
pub fn scan_value(s: &[u8], at: usize, depth: usize) -> (r: Option<usize>)
    ensures
        r matches Some(end) ==> value_end(s@, at as int, depth as nat) == Some(end as int) && at
            < end <= s.len(),
        r is None ==> value_end(s@, at as int, depth as nat) is None,
    decreases depth,
{
    if at >= s.len() {
        return None;
    }
    let first = s[at];
    if first == INT {
        scan_integer(s, at)
    } else if digit(first) {
        match scan_string(s, at) {
            Some((_, end)) => Some(end),
            None => None,
        }
    } else if first == LIST && depth > 0 {
        let mut pos: usize = at + 1;
        loop
            invariant
                at < pos <= s.len(),
                depth > 0,
                value_end(s@, at as int, depth as nat) == list_end(
                    s@,
                    pos as int,
                    (depth - 1) as nat,
                ),
            decreases s.len() - pos,
        {
            if pos >= s.len() {
                return None;
            }
            if s[pos] == END {
                return Some(pos + 1);
            }
            match scan_value(s, pos, depth - 1) {
                Some(next) => {
                    pos = next;
                },
                None => {
                    return None;
                },
            }
        }
    } else if first == DICT && depth > 0 {
        let mut pos: usize = at + 1;
        loop
            invariant
                at < pos <= s.len(),
                depth > 0,
                value_end(s@, at as int, depth as nat) == dict_end(
                    s@,
                    pos as int,
                    (depth - 1) as nat,
                ),
            decreases s.len() - pos,
        {
            if pos >= s.len() {
                return None;
            }
            if s[pos] == END {
                return Some(pos + 1);
            }
            if !digit(s[pos]) {
                return None;
            }
            let value = match scan_string(s, pos) {
                Some((_, end)) => end,
                None => {
                    return None;
                },
            };
            match scan_value(s, value, depth - 1) {
                Some(next) => {
                    pos = next;
                },
                None => {
                    return None;
                },
            }
        }
    } else {
        None
    }
}

/// Tests whether a document is one complete value within the limits.
pub fn is_well_formed(doc: &[u8]) -> (r: bool)
    ensures
        r == well_formed(doc@),
{
    if doc.len() > MAX_DOCUMENT_LEN {
        return false;
    }
    match scan_value(doc, 0, MAX_DEPTH) {
        Some(end) => end == doc.len(),
        None => false,
    }
}

/// The run of digits that starts at `at` ends at or behind `at`, holds
/// digits only, and is followed by no digit.
pub proof fn lemma_digits_end(s: Seq<u8>, at: int)
    requires
        0 <= at,
    ensures
        at <= digits_end(s, at),
        at <= s.len() ==> digits_end(s, at) <= s.len(),
        forall|i: int| at <= i < digits_end(s, at) ==> is_digit(#[trigger] s[i]),
        digits_end(s, at) < s.len() ==> !is_digit(s[digits_end(s, at)]),
    decreases s.len() - at,
{
    if at < s.len() && is_digit(s[at]) {
        lemma_digits_end(s, at + 1);
    }
}

/// A value ends behind the place where it starts, and within the bytes.
pub proof fn lemma_value_end_bounds(s: Seq<u8>, at: int, depth: nat)
    ensures
        value_end(s, at, depth) matches Some(end) ==> at < end <= s.len(),
    decreases depth, s.len() - at, 0int,
{
    if 0 <= at < s.len() {
        if s[at] == INT {
            let first = if at + 1 < s.len() && s[at + 1] == MINUS {
                at + 2
            } else {
                at + 1
            };
            lemma_digits_end(s, first);
        } else if is_digit(s[at]) {
            lemma_digits_end(s, at);
            if digits_end(s, at) <= s.len() {
                lemma_decimal_grows(s, at, at, digits_end(s, at));
            }
        } else if s[at] == LIST && depth > 0 {
            lemma_list_end_bounds(s, at + 1, (depth - 1) as nat);
        } else if s[at] == DICT && depth > 0 {
            lemma_dict_end_bounds(s, at + 1, (depth - 1) as nat);
        }
    }
}

/// A list ends behind the place of its next item, and within the bytes.
pub proof fn lemma_list_end_bounds(s: Seq<u8>, at: int, depth: nat)
    ensures
        list_end(s, at, depth) matches Some(end) ==> at < end <= s.len(),
    decreases depth, s.len() - at, 1int,
{
    if 0 <= at < s.len() && s[at] != END {
        if let Some(next) = value_end(s, at, depth) {
            if at < next <= s.len() {
                lemma_list_end_bounds(s, next, depth);
            }
        }
    }
}

/// A dictionary ends behind the place of its next key, and within the
/// bytes.
pub proof fn lemma_dict_end_bounds(s: Seq<u8>, at: int, depth: nat)
    ensures
        dict_end(s, at, depth) matches Some(end) ==> at < end <= s.len(),
    decreases depth, s.len() - at, 1int,
{
    if 0 <= at < s.len() && s[at] != END && is_digit(s[at]) {
        if let Some(value) = string_end(s, at) {
            if at < value <= s.len() {
                if let Some(next) = value_end(s, value, depth) {
                    if value < next <= s.len() {
                        lemma_dict_end_bounds(s, next, depth);
                    }
                }
            }
        }
    }
}

/// A run of digits that ends within a part of the bytes is the same run in
/// that part taken by itself.
pub proof fn lemma_digits_end_in_part(s: Seq<u8>, a: int, b: int, at: int)
    requires
        0 <= a <= at <= b <= s.len(),
        digits_end(s, at) < b,
    ensures
        digits_end(s.subrange(a, b), at - a) == digits_end(s, at) - a,
    decreases b - at,
{
    lemma_digits_end(s, at);
    if at < b && is_digit(s[at]) {
        lemma_digits_end_in_part(s, a, b, at + 1);
    }
}

/// Digits within a part of the bytes write the same number in that part
/// taken by itself.
pub proof fn lemma_decimal_in_part(s: Seq<u8>, a: int, b: int, from: int, to: int)
    requires
        0 <= a <= from,
        to <= b <= s.len(),
    ensures
        decimal(s.subrange(a, b), from - a, to - a) == decimal(s, from, to),
    decreases to - from,
{
    if from < to {
        lemma_decimal_in_part(s, a, b, from, to - 1);
    }
}

/// A value that lies within a part of the bytes is a value of that part
/// taken by itself, and ends at the same byte.
pub proof fn lemma_value_end_in_part(s: Seq<u8>, a: int, b: int, at: int, depth: nat)
    requires
        0 <= a <= at,
        b <= s.len(),
        value_end(s, at, depth) matches Some(end) && end <= b,
    ensures
        value_end(s.subrange(a, b), at - a, depth) == Some(value_end(s, at, depth).unwrap() - a),
    decreases depth, s.len() - at, 0int,
{
    let part = s.subrange(a, b);
    let end = value_end(s, at, depth).unwrap();
    lemma_value_end_bounds(s, at, depth);
    if s[at] == INT {
        let negative = at + 1 < s.len() && s[at + 1] == MINUS;
        let first = if negative {
            at + 2
        } else {
            at + 1
        };
        lemma_digits_end(s, first);
        lemma_digits_end_in_part(s, a, b, first);
        lemma_decimal_in_part(s, a, b, first, digits_end(s, first));
        assert(part[at - a] == s[at]);
        assert(part[at + 1 - a] == s[at + 1]);
        assert(part[first - a] == s[first]);
        assert(part[digits_end(s, first) - a] == s[digits_end(s, first)]);
    } else if is_digit(s[at]) {
        lemma_digits_end(s, at);
        lemma_decimal_grows(s, at, at, digits_end(s, at));
        lemma_digits_end_in_part(s, a, b, at);
        lemma_decimal_in_part(s, a, b, at, digits_end(s, at));
        assert(part[at - a] == s[at]);
        assert(part[digits_end(s, at) - a] == s[digits_end(s, at)]);
    } else if s[at] == LIST {
        assert(part[at - a] == s[at]);
        lemma_list_end_in_part(s, a, b, at + 1, (depth - 1) as nat);
    } else {
        assert(part[at - a] == s[at]);
        lemma_dict_end_in_part(s, a, b, at + 1, (depth - 1) as nat);
    }
}

/// The rest of a list that lies within a part of the bytes is the rest of a
/// list of that part taken by itself.
proof fn lemma_list_end_in_part(s: Seq<u8>, a: int, b: int, at: int, depth: nat)
    requires
        0 <= a <= at,
        b <= s.len(),
        list_end(s, at, depth) matches Some(end) && end <= b,
    ensures
        list_end(s.subrange(a, b), at - a, depth) == Some(list_end(s, at, depth).unwrap() - a),
    decreases depth, s.len() - at, 1int,
{
    let part = s.subrange(a, b);
    lemma_list_end_bounds(s, at, depth);
    assert(part[at - a] == s[at]);
    if s[at] != END {
        let next = value_end(s, at, depth).unwrap();
        lemma_list_end_bounds(s, next, depth);
        lemma_value_end_in_part(s, a, b, at, depth);
        lemma_list_end_in_part(s, a, b, next, depth);
    }
}

/// The rest of a dictionary that lies within a part of the bytes is the rest
/// of a dictionary of that part taken by itself.
proof fn lemma_dict_end_in_part(s: Seq<u8>, a: int, b: int, at: int, depth: nat)
    requires
        0 <= a <= at,
        b <= s.len(),
        dict_end(s, at, depth) matches Some(end) && end <= b,
    ensures
        dict_end(s.subrange(a, b), at - a, depth) == Some(dict_end(s, at, depth).unwrap() - a),
    decreases depth, s.len() - at, 1int,
{
    let part = s.subrange(a, b);
    lemma_dict_end_bounds(s, at, depth);
    assert(part[at - a] == s[at]);
    if s[at] != END {
        let value = string_end(s, at).unwrap();
        let next = value_end(s, value, depth).unwrap();
        lemma_dict_end_bounds(s, next, depth);
        lemma_digits_end(s, at);
        lemma_decimal_grows(s, at, at, digits_end(s, at));
        lemma_digits_end_in_part(s, a, b, at);
        lemma_decimal_in_part(s, a, b, at, digits_end(s, at));
        assert(part[digits_end(s, at) - a] == s[digits_end(s, at)]);
        lemma_value_end_in_part(s, a, b, value, depth);
        lemma_dict_end_in_part(s, a, b, next, depth);
    }
}

/// A value that may nest to some depth is the same value where it may nest
/// deeper.
pub proof fn lemma_value_end_deeper(s: Seq<u8>, at: int, depth: nat, more: nat)
    requires
        depth <= more,
        value_end(s, at, depth) is Some,
    ensures
        value_end(s, at, more) == value_end(s, at, depth),
    decreases depth, s.len() - at, 0int,
{
    if s[at] != INT && !is_digit(s[at]) {
        if s[at] == LIST {
            lemma_list_end_deeper(s, at + 1, (depth - 1) as nat, (more - 1) as nat);
        } else {
            lemma_dict_end_deeper(s, at + 1, (depth - 1) as nat, (more - 1) as nat);
        }
    }
}

/// The rest of a list whose items may nest to some depth is the same where
/// they may nest deeper.
proof fn lemma_list_end_deeper(s: Seq<u8>, at: int, depth: nat, more: nat)
    requires
        depth <= more,
        list_end(s, at, depth) is Some,
    ensures
        list_end(s, at, more) == list_end(s, at, depth),
    decreases depth, s.len() - at, 1int,
{
    if s[at] != END {
        let next = value_end(s, at, depth).unwrap();
        lemma_value_end_deeper(s, at, depth, more);
        lemma_list_end_deeper(s, next, depth, more);
    }
}

/// The rest of a dictionary whose values may nest to some depth is the same
/// where they may nest deeper.
proof fn lemma_dict_end_deeper(s: Seq<u8>, at: int, depth: nat, more: nat)
    requires
        depth <= more,
        dict_end(s, at, depth) is Some,
    ensures
        dict_end(s, at, more) == dict_end(s, at, depth),
    decreases depth, s.len() - at, 1int,
{
    if s[at] != END {
        let value = string_end(s, at).unwrap();
        let next = value_end(s, value, depth).unwrap();
        lemma_value_end_deeper(s, value, depth, more);
        lemma_dict_end_deeper(s, next, depth, more);
    }
}

/// The byte range that holds the value of a key holds one whole value.
pub proof fn lemma_entry_span_holds_a_value(s: Seq<u8>, at: int, depth: nat, key: Seq<u8>)
    requires
        entry_span(s, at, depth, key) is Some,
    ensures
        ({
            let (start, end) = entry_span(s, at, depth, key).unwrap();
            at < start && value_end(s, start, depth) == Some(end)
        }),
    decreases s.len() - at,
{
    let value = string_end(s, at).unwrap();
    let next = value_end(s, value, depth).unwrap();
    if entry_span(s, next, depth, key) is Some {
        lemma_entry_span_holds_a_value(s, next, depth, key);
    }
}

/// The bytes that hold the value of a key in a well-formed dictionary
/// document are a well-formed document themselves: they hold one whole
/// value, and nothing else.
pub proof fn lemma_entry_is_a_document(doc: Seq<u8>, key: Seq<u8>)
    requires
        document_entry(doc, key) is Some,
    ensures
        ({
            let (start, end) = document_entry(doc, key).unwrap();
            0 < start < end <= doc.len() && well_formed(doc.subrange(start, end))
        }),
{
    let depth = (MAX_DEPTH - 1) as nat;
    let (start, end) = document_entry(doc, key).unwrap();
    lemma_entry_span_holds_a_value(doc, 1, depth, key);
    lemma_value_end_bounds(doc, start, depth);
    lemma_value_end_in_part(doc, start, end, start, depth);
    lemma_value_end_deeper(doc.subrange(start, end), 0, depth, MAX_DEPTH as nat);
}

/// The model of a byte range.
pub open spec fn span_view(span: Option<(usize, usize)>) -> Option<(int, int)> {
    match span {
        Some((start, end)) => Some((start as int, end as int)),
        None => None,
    }
}

/// Finds the byte range of the value that a well-formed dictionary document
/// gives to `key`.
pub fn find_entry(doc: &[u8], key: &[u8]) -> (r: Option<(usize, usize)>)
    ensures
        span_view(r) == document_entry(doc@, key@),
        r matches Some((start, end)) ==> start <= end <= doc.len(),
{
    if !is_well_formed(doc) || doc[0] != DICT {
        return None;
    }
    let mut found: Option<(usize, usize)> = None;
    let mut pos: usize = 1;
    loop
        invariant
            1 <= pos <= doc.len(),
            found matches Some((start, end)) ==> start <= end <= doc.len(),
            document_entry(doc@, key@) == (match entry_span(
                doc@,
                pos as int,
                (MAX_DEPTH - 1) as nat,
                key@,
            ) {
                Some(span) => Some(span),
                None => span_view(found),
            }),
        decreases doc.len() - pos,
    {
        if pos >= doc.len() || !digit(doc[pos]) {
            return found;
        }
        let (start, value) = match scan_string(doc, pos) {
            Some(key_span) => key_span,
            None => {
                return found;
            },
        };
        let next = match scan_value(doc, value, MAX_DEPTH - 1) {
            Some(next) => next,
            None => {
                return found;
            },
        };
        if bytes_equal(slice_subrange(doc, start, value), key) {
            found = Some((value, next));
        }
        pos = next;
    }
}

} // verus!
