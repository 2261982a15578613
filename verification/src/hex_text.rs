//! Encodings as hexadecimal text, for one value per line of text.

use vstd::prelude::*;
use crate::bits::lemma_packed_bits;
use crate::codec::{lotus_bits, lotus_decode_u64, lotus_decoding, lotus_encode_u64, lotus_encoding};
use crate::error::LotusError;

verus! {

/// The lower-case hexadecimal digit for a number below 16.
pub open spec fn hex_digit(nibble: nat) -> char {
    if nibble < 10 {
        (48 + nibble) as char
    } else {
        (87 + nibble) as char
    }
}

/// The number that a hexadecimal digit of either case stands for.
pub open spec fn hex_digit_value(digit: char) -> Option<nat> {
    let code = digit as nat;
    if 48 <= code <= 57 {
        Some((code - 48) as nat)
    } else if 97 <= code <= 102 {
        Some((code - 87) as nat)
    } else if 65 <= code <= 70 {
        Some((code - 55) as nat)
    } else {
        None
    }
}

/// The text that spells `bytes` in hexadecimal: two lower-case digits for
/// each byte, the high half first.
pub open spec fn hex_text(bytes: Seq<u8>) -> Seq<char> {
    Seq::new(
        2 * bytes.len(),
        |i: int|
            if i % 2 == 0 {
                hex_digit(bytes[i / 2] as nat / 16)
            } else {
                hex_digit(bytes[i / 2] as nat % 16)
            },
    )
}

/// Whether a text spells bytes in hexadecimal: an even number of characters,
/// each of them a hexadecimal digit.
pub open spec fn is_hex_text(text: Seq<char>) -> bool {
    text.len() % 2 == 0 && forall|i: int| 0 <= i < text.len() ==> hex_digit_value(text[i]) is Some
}

/// The bytes that a hexadecimal text spells.
pub open spec fn hex_bytes(text: Seq<char>) -> Seq<u8> {
    Seq::new(
        text.len() / 2,
        |i: int|
            (16 * hex_digit_value(text[2 * i]).unwrap() + hex_digit_value(
                text[2 * i + 1],
            ).unwrap()) as u8,
    )
}

/// The hexadecimal text of any bytes spells those bytes.
pub proof fn lemma_hex_round_trip(bytes: Seq<u8>)
    ensures
        is_hex_text(hex_text(bytes)),
        hex_bytes(hex_text(bytes)) == bytes,
{
    let text = hex_text(bytes);
    assert forall|i: int| 0 <= i < text.len() implies hex_digit_value(text[i]) is Some by {
        let byte = bytes[i / 2] as nat;
        assert(byte / 16 < 16 && byte % 16 < 16);
    }
    assert forall|i: int| 0 <= i < bytes.len() implies hex_bytes(text)[i] == bytes[i] by {
        let byte = bytes[i] as nat;
        assert(byte / 16 < 16 && byte % 16 < 16);
        assert(text[2 * i] == hex_digit(byte / 16));
        assert(text[2 * i + 1] == hex_digit(byte % 16));
        assert(hex_digit_value(hex_digit(byte / 16)) == Some(byte / 16));
        assert(hex_digit_value(hex_digit(byte % 16)) == Some(byte % 16));
    }
    assert(hex_bytes(text) =~= bytes);
}

/// Why `hex::decode` rejected a text. The codec reports every such failure
/// as an invalid encoding, so nothing is read from this value.
#[verifier::external_type_specification]
#[verifier::external_body]
pub struct ExFromHexError(hex::FromHexError);

/// `hex::encode` on a byte slice. The contract is what the crate documents
/// and its source shows: each byte becomes two characters of
/// `0123456789abcdef`, the one for its high four bits first.
#[verifier::external_body]
fn hex_encode(bytes: &[u8]) -> (text: String)
    ensures
        text@ == hex_text(bytes@),
{
    hex::encode(bytes)
}

/// `hex::decode` on a string slice. The contract is what the crate's source
/// shows: the call succeeds exactly on an even number of characters that are
/// all digits or letters `a` to `f` of either case, and then each pair of
/// characters gives one byte, sixteen times the first digit plus the second.
#[verifier::external_body]
fn hex_decode(text: &str) -> (result: Result<Vec<u8>, hex::FromHexError>)
    ensures
        result is Ok <==> is_hex_text(text@),
        result is Ok ==> result->Ok_0@ == hex_bytes(text@),
{
    hex::decode(text)
}

/// Encodes `value` and spells the encoding in hexadecimal. Fails as
/// `lotus_encode_u64` does.
pub fn lotus_encode_hex(value: u64, j_bits: usize, tiers: usize) -> (result: Result<
    String,
    LotusError,
>)
    ensures
        match lotus_encoding(value as nat, j_bits as nat, tiers as nat) {
            Ok(bytes) => result is Ok && result->Ok_0@ == hex_text(bytes),
            Err(error) => result is Err && result->Err_0 == error,
        },
{
    match lotus_encode_u64(value, j_bits, tiers) {
        Ok(bytes) => Ok(hex_encode(bytes.as_slice())),
        Err(error) => Err(error),
    }
}

/// Decodes the value whose encoding `text` spells in hexadecimal. A text
/// that does not spell bytes is an invalid encoding; the bytes of any other
/// text are decoded as `lotus_decode_u64` does.
pub fn lotus_decode_hex(text: &str, j_bits: usize, tiers: usize) -> (result: Result<
    (u64, usize),
    LotusError,
>)
    requires
        4 * text@.len() <= usize::MAX,
    ensures
        is_hex_text(text@) ==> result == lotus_decoding(
            hex_bytes(text@),
            j_bits as nat,
            tiers as nat,
        ),
        !is_hex_text(text@) ==> result == Err::<(u64, usize), LotusError>(
            LotusError::InvalidEncoding,
        ),
{
    match hex_decode(text) {
        Ok(bytes) => lotus_decode_u64(bytes.as_slice(), j_bits, tiers),
        Err(_) => Err(LotusError::InvalidEncoding),
    }
}

/// What `lotus_encode_hex` writes, `lotus_decode_hex` reads back.
pub proof fn lemma_hex_codec_round_trip(value: u64, j_bits: nat, tiers: nat)
    requires
        lotus_encoding(value as nat, j_bits, tiers) is Ok,
        8 * lotus_encoding(value as nat, j_bits, tiers)->Ok_0.len() <= usize::MAX,
    ensures
        is_hex_text(hex_text(lotus_encoding(value as nat, j_bits, tiers)->Ok_0)),
        lotus_decoding(
            hex_bytes(hex_text(lotus_encoding(value as nat, j_bits, tiers)->Ok_0)),
            j_bits,
            tiers,
        ) == Ok::<(u64, usize), LotusError>(
            (value, lotus_bits(value as nat, j_bits, tiers).len() as usize),
        ),
{
    let bytes = lotus_encoding(value as nat, j_bits, tiers)->Ok_0;
    lemma_hex_round_trip(bytes);
    lemma_packed_bits(lotus_bits(value as nat, j_bits, tiers));
    assert(bytes + Seq::<u8>::empty() =~= bytes);
    crate::laws::lemma_round_trip(value, j_bits, tiers, Seq::empty());
}

} // verus!
