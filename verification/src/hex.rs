//! Payloads written as hex strings.

use vstd::prelude::*;
use vstd::string::StrSliceExecFns;
use vstd::string::StringSliceAdditionalSpecFns;
use vstd::utf8::{encode_utf8, is_ascii_chars};

verus! {

/// Raw bytes that are written as a lowercase hex string and read from a hex
/// string in which `A-F` and `a-f` are both accepted, with an optional
/// `0x` / `0X` prefix.
#[derive(Clone, Debug, PartialEq, Eq)]
pub struct HexBytes(pub Vec<u8>);

/// Why a hex string could not be decoded.
#[derive(Clone, Copy, Debug, PartialEq, Eq)]
pub enum HexError {
    /// A byte that is not a hex digit, at byte position `index`.
    InvalidHexCharacter { c: char, index: usize },
    /// The number of hex digits is odd.
    OddLength,
    /// The digits do not fill a container of fixed size.
    InvalidStringLength,
}

/// The value of an ASCII hex digit (either case).
pub open spec fn hex_digit_value(b: u8) -> Option<u8> {
    if 0x30 <= b <= 0x39 {
        Some((b - 0x30) as u8)
    } else if 0x41 <= b <= 0x46 {
        Some((b - 0x41 + 10) as u8)
    } else if 0x61 <= b <= 0x66 {
        Some((b - 0x61 + 10) as u8)
    } else {
        None
    }
}

pub open spec fn is_hex_digit(b: u8) -> bool {
    hex_digit_value(b) is Some
}

/// `bytes[index]` is the first byte of `bytes` that is not a hex digit.
pub open spec fn first_non_hex(bytes: Seq<u8>, index: int) -> bool {
    &&& 0 <= index < bytes.len()
    &&& !is_hex_digit(bytes[index])
    &&& forall|j: int| 0 <= j < index ==> is_hex_digit(#[trigger] bytes[j])
}

/// The bytes that pairs of hex digits stand for, high digit first.
pub open spec fn hex_pairs(digits: Seq<u8>) -> Seq<u8> {
    Seq::new(
        digits.len() / 2,
        |i: int| (hex_digit_value(digits[2 * i]).unwrap() * 16 + hex_digit_value(digits[2 * i + 1]).unwrap()) as u8,
    )
}

/// The outcome of decoding hex digits: the bytes, or why they are refused.
pub type HexDecoding = Result<Seq<u8>, HexError>;

/// What decoding the hex digits `digits` gives: an odd length is refused
/// first, then the first byte that is not a hex digit; otherwise the bytes.
pub open spec fn hex_decode(digits: Seq<u8>) -> HexDecoding {
    if digits.len() % 2 != 0 {
        Err(HexError::OddLength)
    } else if exists|i: int| first_non_hex(digits, i) {
        let i = choose|i: int| first_non_hex(digits, i);
        Err(HexError::InvalidHexCharacter { c: digits[i] as char, index: i as usize })
    } else {
        Ok(hex_pairs(digits))
    }
}

/// The lowercase hex digit for a value below 16.
pub open spec fn hex_char(v: u8) -> char {
    if v < 10 {
        (0x30 + v) as char
    } else {
        (0x61 + v - 10) as char
    }
}

/// The lowercase hex string of `bytes`: two digits per byte, high nibble first.
pub open spec fn hex_string(bytes: Seq<u8>) -> Seq<char> {
    Seq::new(
        2 * bytes.len(),
        |i: int|
            if i % 2 == 0 {
                hex_char(bytes[i / 2] / 16)
            } else {
                hex_char(bytes[i / 2] % 16)
            },
    )
}

/// Decodes a hex string (`hex::decode`) over the bytes of `s`; the error of
/// the `hex` crate is turned into a [`HexError`], variant for variant.
#[verifier::external_body]
fn decode_hex(s: &str) -> (r: Result<Vec<u8>, HexError>)
    ensures
        r matches Ok(v) ==> hex_decode(s.spec_bytes()) == HexDecoding::Ok(v@),
        r matches Err(e) ==> hex_decode(s.spec_bytes()) == HexDecoding::Err(e),
{
    hex::decode(s).map_err(|e| match e {
        hex::FromHexError::InvalidHexCharacter { c, index } => HexError::InvalidHexCharacter { c, index },
        hex::FromHexError::OddLength => HexError::OddLength,
        hex::FromHexError::InvalidStringLength => HexError::InvalidStringLength,
    })
}

/// Encodes bytes as a lowercase hex string (`hex::encode`).
#[verifier::external_body]
fn encode_hex(data: &[u8]) -> (r: String)
    ensures
        r@ == hex_string(data@),
{
    hex::encode(data)
}

/// The ASCII whitespace characters: space, tab, line feed, form feed and carriage return.
pub open spec fn is_ascii_space(c: char) -> bool {
    c == ' ' || c == '\t' || c == '\n' || c == '\x0C' || c == '\r'
}

/// The number of ASCII whitespace characters at the start of `s`.
pub open spec fn leading_space_len(s: Seq<char>) -> int
    decreases s.len(),
{
    if s.len() > 0 && is_ascii_space(s[0]) {
        1 + leading_space_len(s.drop_first())
    } else {
        0
    }
}

/// `s` without leading ASCII whitespace, then without a `0x` / `0X` that
/// stands right at its start.
pub open spec fn strip_hex_prefix(s: Seq<char>) -> Seq<char> {
    let t = s.skip(leading_space_len(s));
    if t.len() >= 2 && t[0] == '0' && (t[1] == 'x' || t[1] == 'X') {
        t.skip(2)
    } else {
        t
    }
}

proof fn lemma_leading_space_len(s: Seq<char>, i: int)
    requires
        0 <= i <= s.len(),
        forall|j: int| 0 <= j < i ==> is_ascii_space(#[trigger] s[j]),
        i == s.len() || !is_ascii_space(s[i]),
    ensures
        leading_space_len(s) == i,
    decreases i,
{
    if i > 0 {
        let t = s.drop_first();
        assert forall|j: int| 0 <= j < i - 1 implies is_ascii_space(#[trigger] t[j]) by {
            assert(t[j] == s[j + 1]);
        }
        if i < s.len() {
            assert(t[i - 1] == s[i]);
        }
        lemma_leading_space_len(t, i - 1);
    }
}

/// Returns `s` without leading ASCII whitespace, then strips `0x` / `0X` only
/// when those two characters appear at position zero; any later `x` is part
/// of the hex payload (so `"10xf"` is not read as prefixed hex).
pub fn strip_optional_hex_prefix(s: &str) -> (r: &str)
    ensures
        r@ == strip_hex_prefix(s@),
{
    let len = s.unicode_len();
    let mut i: usize = 0;
    while i < len && is_ascii_space_char(s.get_char(i))
        invariant
            len == s@.len(),
            i <= len,
            forall|j: int| 0 <= j < i ==> is_ascii_space(#[trigger] s@[j]),
        decreases len - i,
    {
        i = i + 1;
    }
    proof {
        lemma_leading_space_len(s@, i as int);
    }
    if len - i >= 2 && s.get_char(i) == '0' && (s.get_char(i + 1) == 'x' || s.get_char(i + 1) == 'X') {
        let r = s.substring_char(i + 2, len);
        proof {
            assert(r@ =~= s@.skip(i as int).skip(2));
        }
        r
    } else {
        let r = s.substring_char(i, len);
        proof {
            assert(r@ =~= s@.skip(i as int));
        }
        r
    }
}

fn is_ascii_space_char(c: char) -> (r: bool)
    ensures
        r == is_ascii_space(c),
{
    c == ' ' || c == '\t' || c == '\n' || c == '\x0C' || c == '\r'
}

impl HexBytes {
    /// Reads a hex string: leading ASCII whitespace and an optional `0x` /
    /// `0X` prefix are skipped, then the rest must be an even number of hex
    /// digits in either case.
    pub fn from_hex_str(s: &str) -> (r: Result<HexBytes, HexError>)
        ensures
            r matches Ok(b) ==> hex_decode(encode_utf8(strip_hex_prefix(s@))) == HexDecoding::Ok(b.0@),
            r matches Err(e) ==> hex_decode(encode_utf8(strip_hex_prefix(s@))) == HexDecoding::Err(e),
    {
        let digits = strip_optional_hex_prefix(s);
        match decode_hex(digits) {
            Ok(bytes) => Ok(HexBytes(bytes)),
            Err(e) => Err(e),
        }
    }

    /// The bytes as a lowercase hex string, two digits per byte.
    pub fn to_hex_string(&self) -> (r: String)
        ensures
            r@ == hex_string(self.0@),
    {
        encode_hex(self.0.as_slice())
    }
}

/// The bytes of the digit `hex_char(v)` decode back to `v`.
proof fn lemma_hex_char(v: u8)
    requires
        v < 16,
    ensures
        '\0' <= hex_char(v) <= '\u{7f}',
        hex_digit_value(hex_char(v) as u8) == Some(v),
        !is_ascii_space(hex_char(v)),
        hex_char(v) != 'x' && hex_char(v) != 'X',
{
}

/// Reading back what was written gives the bytes again: the lowercase hex
/// string of any bytes decodes to those bytes.
pub proof fn law_hex_roundtrip(bytes: Seq<u8>)
    ensures
        hex_decode(encode_utf8(strip_hex_prefix(hex_string(bytes)))) == HexDecoding::Ok(bytes),
{
    let s = hex_string(bytes);
    assert forall|i: int| 0 <= i < s.len() implies '\0' <= #[trigger] s[i] <= '\u{7f}' && hex_digit_value(s[i] as u8) is Some
        && !is_ascii_space(s[i]) && s[i] != 'x' && s[i] != 'X' by {
        lemma_hex_char(bytes[i / 2] / 16);
        lemma_hex_char(bytes[i / 2] % 16);
    }
    if s.len() > 0 {
        assert(!is_ascii_space(s[0]));
    }
    assert(leading_space_len(s) == 0);
    assert(s.skip(0) =~= s);
    assert(strip_hex_prefix(s) == s);
    assert(is_ascii_chars(s));
    vstd::utf8::is_ascii_chars_encode_utf8(s);
    let d = encode_utf8(s);
    assert forall|i: int| 0 <= i < d.len() implies is_hex_digit(#[trigger] d[i]) by {
        assert(d[i] == s[i] as u8);
    }
    assert(!exists|i: int| first_non_hex(d, i));
    assert forall|i: int| 0 <= i < bytes.len() implies #[trigger] hex_pairs(d)[i] == bytes[i] by {
        let x = bytes[i];
        lemma_hex_char(x / 16);
        lemma_hex_char(x % 16);
        assert(d[2 * i] == s[2 * i] as u8);
        assert(d[2 * i + 1] == s[2 * i + 1] as u8);
        assert((2 * i) / 2 == i);
        assert((2 * i + 1) / 2 == i);
        assert((2 * i) % 2 == 0);
        assert((2 * i + 1) % 2 == 1);
        assert(x / 16 * 16 + x % 16 == x);
    }
    assert(hex_pairs(d) =~= bytes);
}

} // verus!
