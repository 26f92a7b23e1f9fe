//! Digests and hexadecimal text.

use sha2::Digest;
use vstd::prelude::*;
use vstd::utf8::*;

verus! {

/// The SHA-256 digest of `data`.
pub uninterp spec fn sha256_of(data: Seq<u8>) -> Seq<u8>;

/// The digest of `data`. Calls `Sha256::digest`, which hashes its argument in one
/// go and gives thirty-two bytes that depend on the argument alone.
#[verifier::external_body]
pub(crate) fn sha256(data: &[u8]) -> (out: Vec<u8>)
    ensures
        out@ == sha256_of(data@),
        out@.len() == 32,
{
    sha2::Sha256::digest(data).to_vec()
}

/// The lower-case hexadecimal digit of a value below 16.
pub open spec fn hex_digit(v: int) -> char {
    if v < 10 {
        ((48 + v) as u8) as char
    } else {
        ((87 + v) as u8) as char
    }
}

/// Two digits for each byte, the high half first.
pub open spec fn hex_of(data: Seq<u8>) -> Seq<char> {
    Seq::new(
        data.len() * 2,
        |i: int|
            if i % 2 == 0 {
                hex_digit(data[i / 2] as int / 16)
            } else {
                hex_digit(data[i / 2] as int % 16)
            },
    )
}

/// The hexadecimal text of `data`. Calls `hex::encode`, which writes two
/// lower-case digits for each byte.
#[verifier::external_body]
pub(crate) fn hex_encode(data: &[u8]) -> (out: String)
    ensures
        out@ == hex_of(data@),
{
    hex::encode(data)
}

/// The value of a hexadecimal digit of either case.
pub open spec fn hex_value(c: u8) -> Option<int> {
    if 48 <= c <= 57 {
        Some(c - 48)
    } else if 65 <= c <= 70 {
        Some(c - 55)
    } else if 97 <= c <= 102 {
        Some(c - 87)
    } else {
        None
    }
}

/// An even number of bytes, each of them a hexadecimal digit.
pub open spec fn is_hex(text: Seq<u8>) -> bool {
    text.len() % 2 == 0 && forall|i: int| 0 <= i < text.len() ==> hex_value(#[trigger] text[i])
        is Some
}

/// The bytes that a string of hexadecimal digits spells.
pub open spec fn hex_bytes(text: Seq<u8>) -> Seq<u8> {
    Seq::new(
        text.len() / 2,
        |i: int| (hex_value(text[2 * i])->0 * 16 + hex_value(text[2 * i + 1])->0) as u8,
    )
}

/// What the decoder says of a text that is not hexadecimal.
pub uninterp spec fn hex_fault(text: Seq<char>) -> Seq<char>;

/// Reads hexadecimal text. Calls `hex::decode`, which takes the UTF-8 bytes of
/// the text in pairs, accepts digits of either case, and otherwise gives an error
/// whose message depends on the text alone.
#[verifier::external_body]
pub(crate) fn hex_decode(text: &str) -> (out: Result<Vec<u8>, String>)
    ensures
        match out {
            Ok(bytes) => is_hex(encode_utf8(text@)) && bytes@ == hex_bytes(encode_utf8(text@)),
            Err(message) => !is_hex(encode_utf8(text@)) && message@ == hex_fault(text@),
        },
{
    hex::decode(text).map_err(|e| e.to_string())
}

/// Hexadecimal text reads back as the bytes that it was written from.
pub proof fn law_hex_reads_back(data: Seq<u8>)
    ensures
        is_ascii_chars(hex_of(data)),
        is_hex(encode_utf8(hex_of(data))),
        hex_bytes(encode_utf8(hex_of(data))) == data,
{
    let text = hex_of(data);
    assert forall|i: int| 0 <= i < text.len() implies 0 <= (#[trigger] text[i]) as u32 <= 127 by {}
    assert(is_ascii_chars(text));
    is_ascii_chars_encode_utf8(text);
    let bytes = encode_utf8(text);
    assert forall|i: int| 0 <= i < bytes.len() implies hex_value(#[trigger] bytes[i])
        == Some(
        if i % 2 == 0 {
            data[i / 2] as int / 16
        } else {
            data[i / 2] as int % 16
        },
    ) by {
        assert(bytes[i] == text[i] as u8);
    }
    assert(hex_bytes(bytes) =~= data) by {
        assert forall|i: int| 0 <= i < data.len() implies #[trigger] hex_bytes(bytes)[i]
            == data[i] by {
            assert(hex_value(bytes[2 * i]) == Some(data[i] as int / 16));
            assert(hex_value(bytes[2 * i + 1]) == Some(data[i] as int % 16));
        }
    }
}

} // verus!
