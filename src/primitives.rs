//! The outside operations the token codec is built from: transport
//! encoding, compression, message authentication, and JSON string syntax.

use vstd::prelude::*;
use base64::Engine;
use std::io::Write;
use crate::record::string_end;
use vstd::utf8::{encode_utf8, valid_utf8};

verus! {

/// What `base64::engine::general_purpose::STANDARD` encodes `b` to.
pub uninterp spec fn base64_of(b: Seq<u8>) -> Seq<char>;

/// The standard base64 alphabet, with its padding character.
pub open spec fn is_base64_char(c: char) -> bool {
    ('A' <= c <= 'Z') || ('a' <= c <= 'z') || ('0' <= c <= '9') || c == '+' || c == '/' || c
        == '='
}

/// What a zlib stream at the default compression level holds for `b`.
pub uninterp spec fn zlib_of(b: Seq<u8>) -> Seq<u8>;

/// What a zlib decoder yields for the stream `b`, or `None` where it rejects it.
pub uninterp spec fn unzlib_of(b: Seq<u8>) -> Option<Seq<u8>>;

/// The HMAC-SHA256 tag of `msg` under `key`.
pub uninterp spec fn hmac_sha256_of(key: Seq<u8>, msg: Seq<u8>) -> Seq<u8>;

/// A lowercase hexadecimal digit.
pub open spec fn hex_digit(d: u8) -> u8 {
    if d < 10 {
        (48 + d) as u8
    } else {
        (87 + d) as u8
    }
}

/// How `serde_json` writes byte `c` of a string's UTF-8 inside its literal:
/// the quote, the backslash and control bytes escaped, all else as it is.
pub open spec fn escaped_byte(c: u8) -> Seq<u8> {
    if c == 8 {
        seq![92u8, 98]
    } else if c == 9 {
        seq![92u8, 116]
    } else if c == 10 {
        seq![92u8, 110]
    } else if c == 12 {
        seq![92u8, 102]
    } else if c == 13 {
        seq![92u8, 114]
    } else if c == 34 {
        seq![92u8, 34]
    } else if c == 92 {
        seq![92u8, 92]
    } else if c < 32 {
        seq![92u8, 117, 48, 48, hex_digit(c / 16), hex_digit(c % 16)]
    } else {
        seq![c]
    }
}

pub open spec fn escaped_bytes(b: Seq<u8>) -> Seq<u8>
    decreases b.len(),
{
    if b.len() == 0 {
        Seq::empty()
    } else {
        escaped_bytes(b.drop_last()) + escaped_byte(b.last())
    }
}

/// The JSON string literal that `serde_json` writes for `s`.
pub open spec fn json_string_of(s: Seq<char>) -> Seq<u8> {
    seq![34u8] + escaped_bytes(encode_utf8(s)) + seq![34u8]
}

/// The string that `serde_json` reads from the JSON text `b`, or `None`
/// where `b` is not a JSON string.
pub uninterp spec fn json_string_parsed(b: Seq<u8>) -> Option<Seq<char>>;

/// Whether `serde_json` reads `b` as one JSON value.
pub uninterp spec fn is_json_value(b: Seq<u8>) -> bool;

/// The longest message or key the MAC accepts: SHA-256 counts its input in a
/// 64-bit number of bits, and HMAC adds a block to it.
pub const MAC_INPUT_LIMIT: u64 = 0x1fff_ffff_ffff_ff00;

/// Relies on `base64`'s STANDARD engine `encode`: padded standard-alphabet
/// text, and distinct inputs never share an encoding.
#[verifier::external_body]
pub(crate) fn base64_encode(b: &[u8]) -> (r: String)
    ensures
        r@ == base64_of(b@),
        forall|i: int| 0 <= i < r@.len() ==> is_base64_char(#[trigger] r@[i]),
        forall|x: Seq<u8>| #[trigger] base64_of(x) == r@ ==> x == b@,
{
    base64::engine::general_purpose::STANDARD.encode(b)
}

/// Relies on `base64`'s STANDARD engine `decode`, which requires canonical
/// padding and zero trailing bits: it accepts exactly the encodings of byte
/// strings, and gives back those bytes.
#[verifier::external_body]
pub(crate) fn base64_decode(s: &[char]) -> (r: Option<Vec<u8>>)
    ensures
        match r {
            Some(v) => {
                &&& base64_of(v@) == s@
                &&& forall|x: Seq<u8>| #[trigger] base64_of(x) == s@ ==> x == v@
                &&& forall|i: int| 0 <= i < s@.len() ==> is_base64_char(#[trigger] s@[i])
            },
            None => forall|x: Seq<u8>| #[trigger] base64_of(x) != s@,
        },
{
    let text: String = s.iter().collect();
    base64::engine::general_purpose::STANDARD.decode(text).ok()
}

/// Relies on `flate2::write::ZlibEncoder` at `Compression::default()`: a
/// lossless zlib stream, which the zlib decoder turns back into `b`. Writing
/// into a `Vec` fails only on a corrupt stream state, which a fresh encoder
/// never has.
#[verifier::external_body]
pub(crate) fn zlib_compress(b: &[u8]) -> (r: Option<Vec<u8>>)
    ensures
        match r {
            Some(v) => v@ == zlib_of(b@) && unzlib_of(v@) == Some(b@),
            None => false,
        },
{
    let mut encoder = flate2::write::ZlibEncoder::new(Vec::new(), flate2::Compression::default());
    match encoder.write_all(b) {
        Ok(()) => encoder.finish().ok(),
        Err(_) => None,
    }
}

/// Relies on `flate2::write::ZlibDecoder`: what it yields for a stream.
#[verifier::external_body]
pub(crate) fn zlib_decompress(b: &[u8]) -> (r: Option<Vec<u8>>)
    ensures
        match unzlib_of(b@) {
            Some(x) => r matches Some(v) && v@ == x,
            None => r is None,
        },
{
    let mut decoder = flate2::write::ZlibDecoder::new(Vec::new());
    match decoder.write_all(b) {
        Ok(()) => decoder.finish().ok(),
        Err(_) => None,
    }
}

/// Relies on `ring::hmac::sign` with `HMAC_SHA256`, keyed by `Key::new`: a
/// tag as long as a SHA-256 digest.
#[verifier::external_body]
pub(crate) fn hmac_sign(key: &[u8], msg: &[u8]) -> (r: Vec<u8>)
    requires
        key@.len() < MAC_INPUT_LIMIT,
        msg@.len() < MAC_INPUT_LIMIT,
    ensures
        r@ == hmac_sha256_of(key@, msg@),
        r@.len() == 32,
{
    let k = ring::hmac::Key::new(ring::hmac::HMAC_SHA256, key);
    ring::hmac::sign(&k, msg).as_ref().to_vec()
}

/// Relies on `ring::hmac::verify` with `HMAC_SHA256`: it accepts exactly the
/// tag that `sign` gives, comparing in constant time.
#[verifier::external_body]
pub(crate) fn hmac_verify(key: &[u8], msg: &[u8], tag: &[u8]) -> (r: bool)
    requires
        key@.len() < MAC_INPUT_LIMIT,
        msg@.len() < MAC_INPUT_LIMIT,
    ensures
        r == (tag@ == hmac_sha256_of(key@, msg@)),
{
    let k = ring::hmac::Key::new(ring::hmac::HMAC_SHA256, key);
    ring::hmac::verify(&k, msg, tag).is_ok()
}

/// Relies on `serde_json::to_vec` for a string (`format_escaped_str` and its
/// `ESCAPE` table): its JSON literal, which
/// `serde_json` reads back as the same string, in UTF-8 (`to_string`
/// makes its `String` from these bytes unchecked). The literal is a quote, the
/// content with every quote and backslash inside a backslash escape, and a
/// quote; writing into a `Vec` cannot fail.
#[verifier::external_body]
pub(crate) fn json_string(s: &str) -> (r: Option<Vec<u8>>)
    ensures
        match r {
            Some(v) => {
                &&& v@ == json_string_of(s@)
                &&& json_string_parsed(v@) == Some(s@)
                &&& v@.len() >= 1 && v@[0] == 34
                &&& string_end(v@, 1) == Some(v@.len() as int)
                &&& valid_utf8(v@)
            },
            None => false,
        },
{
    serde_json::to_vec(s).ok()
}

/// Relies on `serde_json::from_slice` for a string.
#[verifier::external_body]
pub(crate) fn json_string_parse(b: &[u8]) -> (r: Option<String>)
    ensures
        match json_string_parsed(b@) {
            Some(x) => r matches Some(t) && t@ == x,
            None => r is None,
        },
{
    serde_json::from_slice::<String>(b).ok()
}

} // verus!

verus! {

/// Relies on `serde_json::from_slice` into `serde::de::IgnoredAny`: whether
/// it reads `b` as one JSON value, which it then discards.
#[verifier::external_body]
pub(crate) fn json_value_check(b: &[u8]) -> (r: bool)
    ensures
        r == is_json_value(b@),
{
    serde_json::from_slice::<serde::de::IgnoredAny>(b).is_ok()
}

/// Relies on `std::str::from_utf8`: it succeeds exactly on valid UTF-8.
#[verifier::external_body]
pub(crate) fn utf8_check(b: &[u8]) -> (r: bool)
    ensures
        r == valid_utf8(b@),
{
    std::str::from_utf8(b).is_ok()
}

} // verus!
