//! Lowercase hexadecimal encoding of byte strings.

use vstd::prelude::*;
use crate::text::push_char;
use vstd::string::StringSliceAdditionalSpecFns;
use vstd::utf8::{encode_utf8, is_ascii_chars, is_ascii_chars_encode_utf8};

verus! {

/// The character that stands for the nibble `n` (`0 <= n < 16`).
pub open spec fn hex_digit(n: int) -> char {
    if n < 10 {
        (48 + n) as char
    } else {
        (87 + n) as char
    }
}

/// Two lowercase digits per byte, high nibble first.
pub open spec fn hex_encode_spec(data: Seq<u8>) -> Seq<char> {
    Seq::new(
        2 * data.len(),
        |i: int|
            if i % 2 == 0 {
                hex_digit(data[i / 2] as int / 16)
            } else {
                hex_digit(data[i / 2] as int % 16)
            },
    )
}

/// The value of one hex digit given as an ASCII byte, either case.
pub open spec fn nibble_value(c: u8) -> Option<u8> {
    if 48 <= c <= 57 {
        Some((c - 48) as u8)
    } else if 97 <= c <= 102 {
        Some((c - 97 + 10) as u8)
    } else if 65 <= c <= 70 {
        Some((c - 65 + 10) as u8)
    } else {
        None
    }
}

/// Whether every byte of `b` is a hex digit.
pub open spec fn all_hex_digits(b: Seq<u8>) -> bool {
    forall|i: int| 0 <= i < b.len() ==> (#[trigger] nibble_value(b[i])) is Some
}

/// The bytes that a string of an even number of hex digits stands for.
pub open spec fn hex_decode_spec(b: Seq<u8>) -> Seq<u8> {
    Seq::new(
        b.len() / 2,
        |i: int| (nibble_value(b[2 * i])->0 * 16 + nibble_value(b[2 * i + 1])->0) as u8,
    )
}

/// Why a hex string could not be decoded.
#[derive(Debug, Clone, Copy, PartialEq, Eq)]
pub enum HexError {
    /// An odd number of bytes.
    OddLength,
    /// A byte that is not a hex digit.
    InvalidChar,
}

/// What decoding `b` gives: an error for an odd length, then for any non-digit.
pub open spec fn hex_decode_result(b: Seq<u8>) -> Result<Seq<u8>, HexError> {
    if b.len() % 2 != 0 {
        Err(HexError::OddLength)
    } else if !all_hex_digits(b) {
        Err(HexError::InvalidChar)
    } else {
        Ok(hex_decode_spec(b))
    }
}

fn digit_char(n: u8) -> (c: char)
    requires
        n < 16,
    ensures
        c == hex_digit(n as int),
{
    if n < 10 {
        (48u8 + n) as char
    } else {
        (87u8 + n) as char
    }
}

/// Lowercase hex encoding of `data`.
pub fn encode(data: &[u8]) -> (r: String)
    ensures
        r@ == hex_encode_spec(data@),
{
    let mut result = String::new();
    let mut i: usize = 0;
    while i < data.len()
        invariant
            i <= data@.len(),
            result@.len() == 2 * i,
            forall|j: int| 0 <= j < 2 * i ==> result@[j] == #[trigger] hex_encode_spec(data@)[j],
        decreases data@.len() - i,
    {
        let byte = data[i];
        let hi = digit_char(byte / 16);
        let lo = digit_char(byte % 16);
        let ghost before = result@;
        push_char(&mut result, hi);
        push_char(&mut result, lo);
        assert forall|j: int| 0 <= j < 2 * (i + 1) implies result@[j] == #[trigger] hex_encode_spec(
            data@,
        )[j] by {
            if j < 2 * i {
                assert(result@[j] == before[j]);
            }
        }
        i = i + 1;
    }
    assert(result@ =~= hex_encode_spec(data@));
    result
}

/// The value of the hex digit `c`, either case.
pub fn hex_char_to_nibble(c: u8) -> (r: Result<u8, HexError>)
    ensures
        match nibble_value(c) {
            Some(v) => r == Ok::<u8, HexError>(v),
            None => r == Err::<u8, HexError>(HexError::InvalidChar),
        },
{
    if 48 <= c && c <= 57 {
        Ok(c - 48)
    } else if 97 <= c && c <= 102 {
        Ok(c - 97 + 10)
    } else if 65 <= c && c <= 70 {
        Ok(c - 65 + 10)
    } else {
        Err(HexError::InvalidChar)
    }
}

/// Decodes a string of hex digits (either case) into bytes.
pub fn decode(s: &str) -> (r: Result<Vec<u8>, HexError>)
    ensures
        match hex_decode_result(s.spec_bytes()) {
            Ok(v) => r is Ok && r->Ok_0@ == v,
            Err(e) => r == Err::<Vec<u8>, HexError>(e),
        },
{
    let b = s.as_bytes();
    if b.len() % 2 != 0 {
        return Err(HexError::OddLength);
    }
    let mut result: Vec<u8> = Vec::with_capacity(b.len() / 2);
    let mut i: usize = 0;
    while i < b.len()
        invariant
            b@ == s.spec_bytes(),
            b@.len() % 2 == 0,
            i <= b@.len(),
            i % 2 == 0,
            result@.len() == i / 2,
            forall|j: int| 0 <= j < i ==> (#[trigger] nibble_value(b@[j])) is Some,
            forall|j: int| 0 <= j < i / 2 ==> result@[j] == #[trigger] hex_decode_spec(b@)[j],
        decreases b@.len() - i,
    {
        let high = hex_char_to_nibble(b[i]);
        let high = match high {
            Ok(v) => v,
            Err(e) => {
                assert(!all_hex_digits(b@)) by {
                    assert(nibble_value(b@[i as int]) is None);
                }
                return Err(e);
            },
        };
        let low = hex_char_to_nibble(b[i + 1]);
        let low = match low {
            Ok(v) => v,
            Err(e) => {
                assert(!all_hex_digits(b@)) by {
                    assert(nibble_value(b@[i + 1]) is None);
                }
                return Err(e);
            },
        };
        let ghost before = result@;
        result.push(high * 16 + low);
        assert forall|j: int| 0 <= j < (i + 2) / 2 implies result@[j] == #[trigger] hex_decode_spec(
            b@,
        )[j] by {
            if j < i / 2 {
                assert(result@[j] == before[j]);
            } else {
                assert(j == i / 2);
                assert(2 * j == i);
            }
        }
        i = i + 2;
    }
    assert(all_hex_digits(b@));
    assert(result@ =~= hex_decode_spec(b@));
    Ok(result)
}

/// The hex text of any bytes is ASCII.
pub proof fn lemma_hex_is_ascii(data: Seq<u8>)
    ensures
        is_ascii_chars(hex_encode_spec(data)),
        encode_utf8(hex_encode_spec(data)).len() == 2 * data.len(),
        forall|i: int| 0 <= i < 2 * data.len() ==> encode_utf8(hex_encode_spec(data))[i]
            == hex_encode_spec(data)[i] as u8,
        forall|i: int| 0 <= i < 2 * data.len() ==> !(65 <= #[trigger] encode_utf8(hex_encode_spec(data))[i] <= 90),
{
    let h = hex_encode_spec(data);
    assert forall|i: int| 0 <= i < h.len() implies '\0' <= #[trigger] h[i] <= '\u{7f}' by {
        let b = data[i / 2] as int;
        assert(0 <= b / 16 < 16 && 0 <= b % 16 < 16);
    }
    is_ascii_chars_encode_utf8(h);
    assert forall|i: int| 0 <= i < 2 * data.len() implies !(65 <= #[trigger] encode_utf8(hex_encode_spec(data))[i] <= 90) by {
        let b = data[i / 2] as int;
        assert(0 <= b / 16 < 16 && 0 <= b % 16 < 16);
        assert(h[i] as u8 == encode_utf8(h)[i]);
    }
}

/// Decoding the hex text of any bytes gives those bytes back.
pub proof fn lemma_hex_roundtrip(data: Seq<u8>)
    ensures
        hex_decode_result(encode_utf8(hex_encode_spec(data))) == Ok::<Seq<u8>, HexError>(data),
{
    lemma_hex_is_ascii(data);
    let h = hex_encode_spec(data);
    let b = encode_utf8(h);
    assert(b.len() % 2 == 0);
    assert forall|i: int| 0 <= i < b.len() implies (#[trigger] nibble_value(b[i])) is Some by {
        let v = data[i / 2] as int;
        assert(0 <= v / 16 < 16 && 0 <= v % 16 < 16);
        assert(b[i] == h[i] as u8);
    }
    assert forall|i: int| 0 <= i < data.len() implies #[trigger] hex_decode_spec(b)[i] == data[i] by {
        let v = data[i] as int;
        assert(b[2 * i] == h[2 * i] as u8);
        assert(b[2 * i + 1] == h[2 * i + 1] as u8);
        assert((2 * i) / 2 == i && (2 * i + 1) / 2 == i);
        assert((2 * i) % 2 == 0 && (2 * i + 1) % 2 == 1);
        assert(nibble_value(b[2 * i])->0 == v / 16);
        assert(nibble_value(b[2 * i + 1])->0 == v % 16);
        assert(v == (v / 16) * 16 + v % 16);
    }
    assert(hex_decode_spec(b) =~= data);
}

/// The ASCII letter `c` in lower case; any other byte as it is.
pub open spec fn ascii_lower(c: u8) -> u8 {
    if 65 <= c <= 90 {
        (c + 32) as u8
    } else {
        c
    }
}

/// Encoding what a hex string decodes to gives the string back in lower case.
pub proof fn lemma_hex_decode_encode(b: Seq<u8>)
    requires
        b.len() % 2 == 0,
        all_hex_digits(b),
    ensures
        hex_encode_spec(hex_decode_spec(b)) == Seq::new(b.len(), |i: int| ascii_lower(b[i]) as char),
{
    let d = hex_decode_spec(b);
    let e = hex_encode_spec(d);
    assert forall|i: int| 0 <= i < b.len() implies #[trigger] e[i] == ascii_lower(b[i]) as char by {
        let j = i / 2;
        assert(nibble_value(b[2 * j]) is Some);
        assert(nibble_value(b[2 * j + 1]) is Some);
        let hi = nibble_value(b[2 * j])->0 as int;
        let lo = nibble_value(b[2 * j + 1])->0 as int;
        assert(0 <= hi < 16 && 0 <= lo < 16);
        assert(d[j] as int == hi * 16 + lo);
        assert((hi * 16 + lo) / 16 == hi && (hi * 16 + lo) % 16 == lo);
        let c = b[i];
        assert(nibble_value(c) is Some);
        if i % 2 == 0 {
            assert(i == 2 * j);
        } else {
            assert(i == 2 * j + 1);
        }
        assert(hex_digit(nibble_value(c)->0 as int) == ascii_lower(c) as char);
    }
    assert(e =~= Seq::new(b.len(), |i: int| ascii_lower(b[i]) as char));
}

} // verus!
