//! `0x`-prefixed lowercase hex, the text form of raw transactions and hashes on
//! the wire. Encoding and decoding are done by the `hex` crate.

use vstd::prelude::*;
use vstd::string::StringExecFns;
use vstd::string::StringSliceAdditionalSpecFns;
use vstd::utf8::{encode_utf8, is_ascii_chars, is_ascii_chars_encode_utf8};

verus! {

/// The lowercase hex digit for a value below 16.
pub open spec fn hex_digit(n: u8) -> char {
    if n < 10 {
        (48 + n) as char
    } else {
        (87 + n) as char
    }
}

/// Lowercase hex text of a byte string: two digits per byte, high nibble first.
pub open spec fn hex_encode_spec(bytes: Seq<u8>) -> Seq<char> {
    Seq::new(
        2 * bytes.len(),
        |i: int|
            if i % 2 == 0 {
                hex_digit(bytes[i / 2] / 16)
            } else {
                hex_digit(bytes[i / 2] % 16)
            },
    )
}

/// The value of one hex digit byte (either case), if it is one.
pub open spec fn hex_value(c: u8) -> Option<u8> {
    if 48 <= c <= 57 {
        Some((c - 48) as u8)
    } else if 97 <= c <= 102 {
        Some((c - 87) as u8)
    } else if 65 <= c <= 70 {
        Some((c - 55) as u8)
    } else {
        None
    }
}

/// Whether every byte of `s` is a hex digit.
pub open spec fn all_hex_digits(s: Seq<u8>) -> bool {
    forall|i: int| 0 <= i < s.len() ==> (#[trigger] hex_value(s[i])) is Some
}

/// Decoding of hex text: even length and hex digits only; each pair gives one byte.
pub open spec fn hex_decode_spec(s: Seq<u8>) -> Option<Seq<u8>> {
    if s.len() % 2 == 0 && all_hex_digits(s) {
        Some(
            Seq::new(
                s.len() / 2,
                |i: int| (hex_value(s[2 * i]).unwrap() * 16 + hex_value(s[2 * i + 1]).unwrap()) as u8,
            ),
        )
    } else {
        None
    }
}

/// `s` with one leading `0x` removed, if it has one.
pub open spec fn strip_0x(s: Seq<u8>) -> Seq<u8> {
    if s.len() >= 2 && s[0] == 48 && s[1] == 120 {
        s.subrange(2, s.len() as int)
    } else {
        s
    }
}

/// A hex digit is an ASCII byte whose value is the digit's.
proof fn lemma_hex_digit(n: u8)
    requires
        n < 16,
    ensures
        (hex_digit(n) as u32) < 128,
        hex_value(hex_digit(n) as u8) == Some(n),
{
}

/// Decoding the `0x` hex text of a byte string gives the byte string back.
pub proof fn lemma_hex0x_round_trip(b: Seq<u8>)
    ensures
        hex_decode_spec(strip_0x(encode_utf8(seq!['0', 'x'] + hex_encode_spec(b)))) == Some(b),
{
    let h = hex_encode_spec(b);
    let c = seq!['0', 'x'] + h;
    assert forall|i: int| 0 <= i < h.len() implies (#[trigger] h[i] as u32) < 128 && hex_value(h[i] as u8) is Some by {
        if i % 2 == 0 {
            lemma_hex_digit(b[i / 2] / 16);
        } else {
            lemma_hex_digit(b[i / 2] % 16);
        }
    }
    assert(is_ascii_chars(c)) by {
        assert forall|i: int| 0 <= i < c.len() implies '\0' <= #[trigger] c[i] <= '\u{7f}' by {
            if i >= 2 {
                assert(c[i] == h[i - 2]);
            }
        }
    }
    is_ascii_chars_encode_utf8(c);
    let e = encode_utf8(c);
    assert(e[0] == 48 && e[1] == 120) by {
        assert(c[0] == '0' && c[1] == 'x');
    }
    let d = strip_0x(e);
    assert(d.len() == h.len());
    assert forall|i: int| 0 <= i < d.len() implies #[trigger] d[i] == h[i] as u8 by {
        assert(d[i] == e[i + 2]);
        assert(c[i + 2] == h[i]);
    }
    assert(all_hex_digits(d));
    let out = Seq::new(d.len() / 2, |i: int| (hex_value(d[2 * i]).unwrap() * 16 + hex_value(d[2 * i + 1]).unwrap()) as u8);
    assert forall|i: int| 0 <= i < b.len() implies #[trigger] out[i] == b[i] by {
        lemma_hex_digit(b[i] / 16);
        lemma_hex_digit(b[i] % 16);
        assert(d[2 * i] == h[2 * i] as u8);
        assert(d[2 * i + 1] == h[2 * i + 1] as u8);
        assert(h[2 * i] == hex_digit(b[i] / 16));
        assert(h[2 * i + 1] == hex_digit(b[i] % 16));
    }
    assert(out =~= b);
}

/// Calls `hex::encode`: lowercase hex of `data`, two digits per byte.
#[verifier::external_body]
fn hex_encode(data: &[u8]) -> (res: String)
    ensures
        res@ == hex_encode_spec(data@),
{
    hex::encode(data)
}

/// The `Display` text of the error `hex::decode` gives on `data`.
pub uninterp spec fn hex_error_text(data: Seq<u8>) -> Seq<char>;

/// Calls `hex::decode`: succeeds exactly on even-length text made of hex digits
/// (either case), and then gives the bytes the digit pairs stand for. A failure
/// is handed back as the error's `to_string()`; for text of odd length that is
/// `Odd number of digits`.
#[verifier::external_body]
fn hex_decode(data: &[u8]) -> (res: Result<Vec<u8>, String>)
    ensures
        res is Ok <==> hex_decode_spec(data@) is Some,
        res matches Ok(v) ==> hex_decode_spec(data@) == Some(v@),
        res matches Err(m) ==> m@ == hex_error_text(data@),
        res matches Err(m) ==> (data@.len() % 2 == 1 ==> m@ == "Odd number of digits"@),
{
    match hex::decode(data) {
        Ok(v) => Ok(v),
        Err(e) => Err(e.to_string()),
    }
}

/// `0x` followed by the lowercase hex of `bytes`.
pub fn hex0x(bytes: &[u8]) -> (res: String)
    ensures
        res@ == seq!['0', 'x'] + hex_encode_spec(bytes@),
{
    let mut s = String::from_str("0x");
    proof {
        reveal_strlit("0x");
    }
    let digits = hex_encode(bytes);
    s.append(digits.as_str());
    s
}

/// The `0x` prefix is optional: text without it decodes, or fails, exactly as
/// the same text with it does.
pub proof fn lemma_0x_optional(b: Seq<u8>)
    requires
        !(b.len() >= 2 && b[0] == 48 && b[1] == 120),
    ensures
        strip_0x(seq![48u8, 120u8] + b) == strip_0x(b),
{
    assert((seq![48u8, 120u8] + b).subrange(2, b.len() as int + 2) =~= b);
}

/// Decodes hex text, with or without a leading `0x`. The error text is
/// `invalid hex: ` followed by the `hex` crate's message.
pub fn decode_hex(s: &str) -> (res: Result<Vec<u8>, String>)
    ensures
        res is Ok <==> hex_decode_spec(strip_0x(s.spec_bytes())) is Some,
        res matches Ok(v) ==> hex_decode_spec(strip_0x(s.spec_bytes())) == Some(v@),
        res matches Err(msg) ==> msg@ == "invalid hex: "@ + hex_error_text(strip_0x(s.spec_bytes())),
{
    let bytes = s.as_bytes();
    let digits: &[u8] = if bytes.len() >= 2 && bytes[0] == 48u8 && bytes[1] == 120u8 {
        vstd::slice::slice_subrange(bytes, 2, bytes.len())
    } else {
        bytes
    };
    match hex_decode(digits) {
        Ok(v) => Ok(v),
        Err(e) => {
            let mut msg = String::from_str("invalid hex: ");
            msg.append(e.as_str());
            Err(msg)
        },
    }
}

} // verus!
