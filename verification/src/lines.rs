//! One value per line of text: decimal numbers in, hexadecimal encodings
//! out, and back.

use vstd::prelude::*;
use crate::codec::{lotus_decoding, lotus_encoding};
use crate::error::LotusError;
use crate::hex_text::{hex_bytes, hex_text, is_hex_text, lotus_decode_hex, lotus_encode_hex};

verus! {

/// The text without the white space at its two ends, as `str::trim` takes
/// it off.
pub uninterp spec fn trimmed(text: Seq<char>) -> Seq<char>;

/// Whether a text is a run of decimal digits, at least one.
pub open spec fn is_decimal(text: Seq<char>) -> bool {
    text.len() >= 1 && forall|i: int| 0 <= i < text.len() ==> '0' <= #[trigger] text[i] <= '9'
}

/// The number that a run of decimal digits spells.
pub open spec fn decimal_value(digits: Seq<char>) -> nat
    decreases digits.len(),
{
    if digits.len() == 0 {
        0
    } else {
        (10 * decimal_value(digits.drop_last()) + (digits.last() as nat - '0' as nat)) as nat
    }
}

/// The 64-bit number that a text spells in decimal: digits only, but for a
/// plus sign that may stand in front of them, and no more than fit.
pub open spec fn parsed_u64(text: Seq<char>) -> Option<u64> {
    let digits = if text.len() > 0 && text[0] == '+' {
        text.subrange(1, text.len() as int)
    } else {
        text
    };
    if is_decimal(digits) && decimal_value(digits) <= u64::MAX {
        Some(decimal_value(digits) as u64)
    } else {
        None
    }
}

/// `str::trim`: the part of the text between the white space at its two
/// ends. Which characters count as white space is left to the standard
/// library; the part is never longer than the text.
#[verifier::external_body]
fn trim_text(text: &str) -> (part: &str)
    ensures
        part@ == trimmed(text@),
        part@.len() <= text@.len(),
{
    text.trim()
}

/// `str::parse::<u64>`: the number that the text spells. As the standard
/// library documents it, the text is an optional plus sign followed by
/// decimal digits only; anything else, an empty text, and a number that does
/// not fit in 64 bits are errors.
#[verifier::external_body]
fn parse_u64(text: &str) -> (value: Option<u64>)
    ensures
        value == parsed_u64(text@),
{
    text.parse::<u64>().ok()
}

/// Encodes the number that a line of text spells and gives the encoding in
/// hexadecimal. White space around the number is ignored. A line that spells
/// no 64-bit number is an invalid encoding.
pub fn lotus_encode_line(line: &str, j_bits: usize, tiers: usize) -> (result: Result<
    String,
    LotusError,
>)
    ensures
        match parsed_u64(trimmed(line@)) {
            None => result is Err && result->Err_0 == LotusError::InvalidEncoding,
            Some(value) => match lotus_encoding(value as nat, j_bits as nat, tiers as nat) {
                Ok(bytes) => result is Ok && result->Ok_0@ == hex_text(bytes),
                Err(error) => result is Err && result->Err_0 == error,
            },
        },
{
    match parse_u64(trim_text(line)) {
        Some(value) => lotus_encode_hex(value, j_bits, tiers),
        None => Err(LotusError::InvalidEncoding),
    }
}

/// Decodes the value whose encoding a line of text spells in hexadecimal.
/// White space around the encoding is ignored.
pub fn lotus_decode_line(line: &str, j_bits: usize, tiers: usize) -> (result: Result<
    (u64, usize),
    LotusError,
>)
    requires
        4 * line@.len() <= usize::MAX,
    ensures
        is_hex_text(trimmed(line@)) ==> result == lotus_decoding(
            hex_bytes(trimmed(line@)),
            j_bits as nat,
            tiers as nat,
        ),
        !is_hex_text(trimmed(line@)) ==> result == Err::<(u64, usize), LotusError>(
            LotusError::InvalidEncoding,
        ),
{
    lotus_decode_hex(trim_text(line), j_bits, tiers)
}

} // verus!
