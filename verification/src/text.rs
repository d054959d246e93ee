//! Byte strings as text, and numbers and bytes as ASCII.

use vstd::prelude::*;
use vstd::utf8::{
    decode_utf8, encode_utf8, encode_utf8_decode_utf8, encode_utf8_valid_utf8, is_ascii_chars,
    is_ascii_chars_encode_utf8, valid_utf8,
};

verus! {

/// Reads bytes as UTF-8 with `std::str::from_utf8`.
///
/// Not proved: that the call succeeds exactly on valid UTF-8, and that the
/// text it gives is what the bytes encode.
#[verifier::external_body]
pub(crate) fn str_from_utf8(bytes: &[u8]) -> (r: Option<&str>)
    ensures
        r is Some <==> valid_utf8(bytes@),
        r matches Some(text) ==> text@ == decode_utf8(bytes@),
{
    std::str::from_utf8(bytes).ok()
}

/// The model of an optional text.
pub open spec fn text_view(text: Option<String>) -> Option<Seq<char>> {
    match text {
        Some(text) => Some(text@),
        None => None,
    }
}

/// Whether every byte is an ASCII character.
pub open spec fn is_ascii_bytes(bytes: Seq<u8>) -> bool {
    forall|i: int| 0 <= i < bytes.len() ==> #[trigger] bytes[i] < 128
}

/// The text that ASCII bytes spell.
pub open spec fn ascii_text(bytes: Seq<u8>) -> Seq<char> {
    Seq::new(bytes.len(), |i: int| bytes[i] as char)
}

/// ASCII bytes are UTF-8, and decode to the characters of the same codes.
pub proof fn lemma_ascii_is_utf8(bytes: Seq<u8>)
    requires
        is_ascii_bytes(bytes),
    ensures
        valid_utf8(bytes),
        decode_utf8(bytes) == ascii_text(bytes),
{
    let chars = ascii_text(bytes);
    assert(is_ascii_chars(chars)) by {
        assert forall|i: int| 0 <= i < chars.len() implies '\0' <= #[trigger] chars[i]
            <= '\u{7f}' by {
            assert(bytes[i] < 128);
        }
    }
    is_ascii_chars_encode_utf8(chars);
    assert(encode_utf8(chars) =~= bytes) by {
        assert forall|i: int| 0 <= i < bytes.len() implies encode_utf8(chars)[i] == bytes[i] by {
            assert(chars[i] as u8 == encode_utf8(chars)[i]);
            assert(bytes[i] < 128);
        }
    }
    encode_utf8_valid_utf8(chars);
    encode_utf8_decode_utf8(chars);
}

/// Turns ASCII bytes into the text that they spell.
pub(crate) fn ascii_string(bytes: &[u8]) -> (text: String)
    requires
        is_ascii_bytes(bytes@),
    ensures
        text@ == ascii_text(bytes@),
{
    proof {
        lemma_ascii_is_utf8(bytes@);
    }
    match str_from_utf8(bytes) {
        Some(text) => text.to_owned(),
        None => String::new(),
    }
}

/// Texts that are joined are encoded by their encodings, joined.
pub proof fn lemma_encode_joined(a: Seq<char>, b: Seq<char>)
    ensures
        encode_utf8(a + b) == encode_utf8(a) + encode_utf8(b),
    decreases a.len(),
{
    if a.len() == 0 {
        assert(a + b =~= b);
        assert(encode_utf8(a) + encode_utf8(b) =~= encode_utf8(b));
    } else {
        assert((a + b).drop_first() =~= a.drop_first() + b);
        lemma_encode_joined(a.drop_first(), b);
        assert(encode_utf8(a + b) =~= encode_utf8(a) + encode_utf8(b));
    }
}

/// The digit of `n` in base 16, with `a` to `f` in upper or lower case.
pub open spec fn hex_digit(n: u8, upper: bool) -> u8
    recommends
        n < 16,
{
    if n < 10 {
        (0x30 + n) as u8
    } else if upper {
        (0x41 + n - 10) as u8
    } else {
        (0x61 + n - 10) as u8
    }
}

/// The two digits of each byte in base 16, in lower case.
pub open spec fn hex_lower(bytes: Seq<u8>) -> Seq<u8>
    decreases bytes.len(),
{
    if bytes.len() == 0 {
        Seq::empty()
    } else {
        hex_lower(bytes.drop_last()).push(hex_digit(bytes.last() / 16, false)).push(
            hex_digit(bytes.last() % 16, false),
        )
    }
}

/// Whether a byte stands for itself in a query: an ASCII letter or digit, or
/// one of `-`, `.`, `_` and `~`.
pub open spec fn is_unreserved(b: u8) -> bool {
    ||| 0x41 <= b <= 0x5a
    ||| 0x61 <= b <= 0x7a
    ||| 0x30 <= b <= 0x39
    ||| b == 0x2d
    ||| b == 0x2e
    ||| b == 0x5f
    ||| b == 0x7e
}

/// A byte as it is written in a query: itself where it is unreserved, else
/// `%` and its two digits in base 16, in upper case.
pub open spec fn percent_encoded_byte(b: u8) -> Seq<u8> {
    if is_unreserved(b) {
        seq![b]
    } else {
        seq![0x25u8, hex_digit(b / 16, true), hex_digit(b % 16, true)]
    }
}

/// Bytes as they are written in a query, each by [`percent_encoded_byte`].
pub open spec fn percent_encoded(bytes: Seq<u8>) -> Seq<u8>
    decreases bytes.len(),
{
    if bytes.len() == 0 {
        Seq::empty()
    } else {
        percent_encoded(bytes.drop_last()) + percent_encoded_byte(bytes.last())
    }
}

/// A number as it is written in base ten, without leading zeros.
pub open spec fn decimal_digits(n: nat) -> Seq<u8>
    decreases n,
{
    if n < 10 {
        seq![(0x30 + n) as u8]
    } else {
        decimal_digits(n / 10).push((0x30 + n % 10) as u8)
    }
}

/// Base-16 digits are ASCII.
pub proof fn lemma_hex_lower_is_ascii(bytes: Seq<u8>)
    ensures
        is_ascii_bytes(hex_lower(bytes)),
        hex_lower(bytes).len() == 2 * bytes.len(),
    decreases bytes.len(),
{
    if bytes.len() > 0 {
        lemma_hex_lower_is_ascii(bytes.drop_last());
    }
}

/// Bytes written for a query are ASCII.
pub proof fn lemma_percent_encoded_is_ascii(bytes: Seq<u8>)
    ensures
        is_ascii_bytes(percent_encoded(bytes)),
    decreases bytes.len(),
{
    if bytes.len() > 0 {
        lemma_percent_encoded_is_ascii(bytes.drop_last());
    }
}

/// A number of 64 bits has at most 20 digits in base ten.
pub proof fn lemma_decimal_digits_len(n: nat)
    ensures
        1 <= decimal_digits(n).len(),
        n <= u64::MAX ==> decimal_digits(n).len() <= 20,
{
    reveal_with_fuel(decimal_digits, 21);
}

/// Numbers written in base ten are ASCII.
pub proof fn lemma_decimal_digits_is_ascii(n: nat)
    ensures
        is_ascii_bytes(decimal_digits(n)),
    decreases n,
{
    if n >= 10 {
        lemma_decimal_digits_is_ascii(n / 10);
    }
}

/// Computes one digit in base 16.
fn to_hex_digit(n: u8, upper: bool) -> (r: u8)
    requires
        n < 16,
    ensures
        r == hex_digit(n, upper),
{
    if n < 10 {
        0x30 + n
    } else if upper {
        0x41 + (n - 10)
    } else {
        0x61 + (n - 10)
    }
}

/// Writes bytes in base 16, in lower case.
pub fn to_hex_lower(bytes: &[u8]) -> (r: Vec<u8>)
    ensures
        r@ == hex_lower(bytes@),
{
    let mut out: Vec<u8> = Vec::new();
    let mut i: usize = 0;
    while i < bytes.len()
        invariant
            i <= bytes.len(),
            out@ == hex_lower(bytes@.subrange(0, i as int)),
        decreases bytes.len() - i,
    {
        assert(bytes@.subrange(0, i + 1).drop_last() =~= bytes@.subrange(0, i as int));
        out.push(to_hex_digit(bytes[i] / 16, false));
        out.push(to_hex_digit(bytes[i] % 16, false));
        i += 1;
    }
    assert(bytes@.subrange(0, i as int) =~= bytes@);
    out
}

/// Tests whether a byte stands for itself in a query.
pub fn unreserved(b: u8) -> (r: bool)
    ensures
        r == is_unreserved(b),
{
    (0x41 <= b && b <= 0x5a) || (0x61 <= b && b <= 0x7a) || (0x30 <= b && b <= 0x39) || b == 0x2d
        || b == 0x2e || b == 0x5f || b == 0x7e
}

/// Writes bytes as a query holds them.
pub fn percent_encode(bytes: &[u8]) -> (r: Vec<u8>)
    ensures
        r@ == percent_encoded(bytes@),
{
    let mut out: Vec<u8> = Vec::new();
    let mut i: usize = 0;
    while i < bytes.len()
        invariant
            i <= bytes.len(),
            out@ == percent_encoded(bytes@.subrange(0, i as int)),
        decreases bytes.len() - i,
    {
        assert(bytes@.subrange(0, i + 1).drop_last() =~= bytes@.subrange(0, i as int));
        let ghost before = out@;
        let b = bytes[i];
        if unreserved(b) {
            out.push(b);
            assert(out@ =~= before + percent_encoded_byte(b));
        } else {
            out.push(0x25);
            out.push(to_hex_digit(b / 16, true));
            out.push(to_hex_digit(b % 16, true));
            assert(out@ =~= before + percent_encoded_byte(b));
        }
        i += 1;
    }
    assert(bytes@.subrange(0, i as int) =~= bytes@);
    out
}

/// Writes a number in base ten.
pub fn to_decimal_digits(n: u64) -> (r: Vec<u8>)
    ensures
        r@ == decimal_digits(n as nat),
    decreases n,
{
    if n < 10 {
        let mut out: Vec<u8> = Vec::new();
        out.push(0x30 + n as u8);
        assert(out@ =~= decimal_digits(n as nat));
        out
    } else {
        let mut out = to_decimal_digits(n / 10);
        out.push(0x30 + (n % 10) as u8);
        out
    }
}

} // verus!
