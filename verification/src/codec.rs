//! Encoding and decoding of 64-bit values.
//!
//! An encoding is a run of bit fields, most significant bit first:
//!
//! ```text
//! [ jumpstarter ][ tier ] ... [ tier ][ payload ]
//! ```
//!
//! The payload field holds the payload of the value. Each tier holds the
//! payload of the width of the field that follows it, and the jumpstarter
//! holds the width of the first tier, less one. The last byte is filled up
//! with zero bits.

use vstd::prelude::*;
use vstd::arithmetic::power2::{
    lemma2_to64, lemma_pow2_strictly_increases, lemma_pow2_unfold, pow2,
};
use vstd::bits::lemma_usize_shl_is_mul;
use crate::bits::{
    bits_of, bytes_bits, field_value, lemma_bits_of_len, lemma_bits_value_bound,
    lemma_packed_bits, packed,
};
use crate::bucket::{
    decoded_payload, lemma_payload_fits, lemma_pow2_high, lotus_decode_value, lotus_encode_value,
    payload_of, payload_width,
};
use crate::config::{
    LOTUS_J2D1, largest_exact_bound, lemma_top_width_fits, lemma_width_bound_grows,
    lemma_width_bound_monotonic, max_width_for_config, top_width, valid_config, width_bound,
};
use crate::error::LotusError;
use crate::reader::BitReader;
use crate::writer::BitWriter;

verus! {

/// The fields that encode `value` below `tiers` tiers and a jumpstarter of
/// `j_bits` bits.
///
/// The last field is the payload of `value`. What stands before it names its
/// width: the jumpstarter where there is no tier, and else the fields that
/// encode the width itself, with one tier less.
pub open spec fn lotus_bits(value: nat, j_bits: nat, tiers: nat) -> Seq<bool>
    decreases tiers,
{
    let width = payload_width(value);
    let header = if tiers == 0 {
        bits_of((width - 1) as nat, j_bits)
    } else {
        lotus_bits(width, j_bits, (tiers - 1) as nat)
    };
    header + bits_of(payload_of(value), width)
}

/// The fields that name a payload width: the jumpstarter alone where there
/// is no tier, and else the fields that encode the width with one tier less.
pub open spec fn header_bits(width: nat, j_bits: nat, tiers: nat) -> Seq<bool> {
    if tiers == 0 {
        bits_of((width - 1) as nat, j_bits)
    } else {
        lotus_bits(width, j_bits, (tiers - 1) as nat)
    }
}

/// What encoding `value` gives: the packed fields, or the reason why the
/// configuration cannot encode the value.
pub open spec fn lotus_encoding(value: nat, j_bits: nat, tiers: nat) -> Result<
    Seq<u8>,
    LotusError,
> {
    if !valid_config(j_bits, tiers) {
        Err(LotusError::InvalidEncoding)
    } else if payload_width(value) > width_bound(j_bits, tiers) {
        Err(LotusError::ValueTooLarge)
    } else {
        Ok(packed(lotus_bits(value, j_bits, tiers)))
    }
}

/// What reading the fields from `from` on gives: a field of `width` bits,
/// then `more` further fields, each as wide as the field before it says.
///
/// The result is the value of the last field and the place where it ends.
/// Reading fails for want of input where the bits end before a field does,
/// as `decoded_payload` says where a field does not stand for a 64-bit value,
/// and as an invalid encoding where a field gives the width zero.
pub open spec fn decoded_fields(bits: Seq<bool>, from: nat, width: nat, more: nat) -> Result<
    (u64, nat),
    LotusError,
>
    decreases more,
{
    if from + width > bits.len() {
        Err(LotusError::UnexpectedEof)
    } else {
        match decoded_payload(field_value(bits, from, width), width) {
            Err(error) => Err(error),
            Ok(value) => if more == 0 {
                Ok((value, from + width))
            } else if value == 0 {
                Err(LotusError::InvalidEncoding)
            } else {
                decoded_fields(bits, from + width, value as nat, (more - 1) as nat)
            },
        }
    }
}

/// What decoding `bytes` gives: the value and the number of bits that encode
/// it, or the reason why the bytes do not start with an encoding.
pub open spec fn lotus_decoding(bytes: Seq<u8>, j_bits: nat, tiers: nat) -> Result<
    (u64, usize),
    LotusError,
> {
    let bits = bytes_bits(bytes);
    if !valid_config(j_bits, tiers) {
        Err(LotusError::InvalidEncoding)
    } else if j_bits > bits.len() {
        Err(LotusError::UnexpectedEof)
    } else {
        match decoded_fields(bits, j_bits, field_value(bits, 0, j_bits) + 1, tiers) {
            Err(error) => Err(error),
            Ok((value, end)) => Ok((value, end as usize)),
        }
    }
}

/// The result of an encoder with its bytes taken as a sequence.
pub open spec fn encoded_view(result: Result<Vec<u8>, LotusError>) -> Result<Seq<u8>, LotusError> {
    match result {
        Ok(bytes) => Ok(bytes@),
        Err(error) => Err(error),
    }
}

/// The `index`-th number of the chain that starts with `value`: each number
/// after the first is the payload width of the one before it.
pub open spec fn chain_value(value: nat, index: nat) -> nat
    decreases index,
{
    if index == 0 {
        value
    } else {
        payload_width(chain_value(value, (index - 1) as nat))
    }
}

/// Going up a chain is going up the widths.
pub proof fn lemma_chain_top(value: nat, index: nat, tiers: nat)
    ensures
        top_width(chain_value(value, index), tiers) == chain_value(value, index + tiers),
    decreases tiers,
{
    if tiers > 0 {
        assert(chain_value(value, index + 1) == payload_width(chain_value(value, index)));
        lemma_chain_top(value, index + 1, (tiers - 1) as nat);
    }
}

/// Every number of a chain after the first is a width between 1 and 64,
/// where the first is a 64-bit value.
pub proof fn lemma_chain_widths(value: nat, index: nat)
    requires
        value <= u64::MAX,
    ensures
        chain_value(value, index) <= u64::MAX,
        index >= 1 ==> 1 <= chain_value(value, index) <= 64,
        index >= 1 ==> chain_value(value, index) == payload_width(
            chain_value(value, (index - 1) as nat),
        ),
    decreases index,
{
    if index > 0 {
        lemma_chain_widths(value, (index - 1) as nat);
        lemma_payload_fits(chain_value(value, (index - 1) as nat));
    }
}

/// Writes the header that names a payload width: the jumpstarter and the
/// tiers.
///
/// Fails with `InvalidEncoding` unless `j_bits` is between 1 and 8 and
/// `tiers` is at least 1, and with `ValueTooLarge` where `width` is beyond
/// what the configuration can express. In every other case the topmost
/// width fits the jumpstarter, and the writer that is returned holds the
/// header and nothing else.
pub fn lotus_encode_header(width: usize, j_bits: usize, tiers: usize) -> (result: Result<
    BitWriter,
    LotusError,
>)
    ensures
        !valid_config(j_bits as nat, tiers as nat) ==> result is Err && result->Err_0
            == LotusError::InvalidEncoding,
        valid_config(j_bits as nat, tiers as nat) && width > width_bound(
            j_bits as nat,
            tiers as nat,
        ) ==> result is Err && result->Err_0 == LotusError::ValueTooLarge,
        valid_config(j_bits as nat, tiers as nat) && width <= width_bound(
            j_bits as nat,
            tiers as nat,
        ) ==> result is Ok && result->Ok_0@ == header_bits(
            width as nat,
            j_bits as nat,
            tiers as nat,
        ),
{
    if j_bits < 1 || j_bits > 8 || tiers == 0 {
        return Err(LotusError::InvalidEncoding);
    }
    let max_width = max_width_for_config(j_bits, tiers);
    proof {
        lemma_pow2_high();
    }
    if width as u128 > max_width {
        return Err(LotusError::ValueTooLarge);
    }
    let ghost first = width as nat;
    let mut chain: Vec<(u64, usize)> = Vec::new();
    let mut current_width: usize = width;
    let mut done: usize = 0;
    while done < tiers
        invariant
            done <= tiers,
            first == width as nat,
            chain@.len() == done,
            current_width as nat == chain_value(first, done as nat),
            forall|k: int|
                0 <= k < done ==> (#[trigger] chain@[k]).0 as nat == payload_of(
                    chain_value(first, k as nat),
                ) && chain@[k].1 as nat == chain_value(first, (k + 1) as nat),
        decreases tiers - done,
    {
        let (tier_bits, tier_width) = lotus_encode_value(current_width as u64)?;
        chain.push((tier_bits, tier_width));
        current_width = tier_width;
        done = done + 1;
    }
    proof {
        lemma2_to64();
        lemma_pow2_strictly_increases(j_bits as nat, 9);
        lemma_usize_shl_is_mul(1, j_bits);
        lemma_chain_top(first, 0, tiers as nat);
        lemma_top_width_fits(first, j_bits as nat, tiers as nat);
        lemma_chain_widths(first, tiers as nat);
        assert((1usize << j_bits) == pow2(j_bits as nat));
    }
    // Never taken: see `lemma_top_width_fits`.
    if current_width == 0 || current_width > (1usize << j_bits) {
        return Err(LotusError::JumpstarterOverflow);
    }
    let jump_val: u64 = (current_width - 1) as u64;
    let mut writer = BitWriter::new();
    writer.write_bits(jump_val, j_bits)?;
    let mut index: usize = chain.len();
    proof {
        assert(writer@ =~= bits_of((current_width - 1) as nat, j_bits as nat));
    }
    while index > 0
        invariant
            index <= tiers,
            chain@.len() == tiers,
            first == width as nat,
            1 <= j_bits <= 8,
            forall|k: int|
                0 <= k < tiers ==> (#[trigger] chain@[k]).0 as nat == payload_of(
                    chain_value(first, k as nat),
                ) && chain@[k].1 as nat == chain_value(first, (k + 1) as nat),
            writer@ == header_bits(
                chain_value(first, index as nat),
                j_bits as nat,
                (tiers - index) as nat,
            ),
        decreases index,
    {
        index = index - 1;
        let (field, field_width) = chain[index];
        proof {
            lemma_chain_widths(first, (index + 1) as nat);
            assert(chain@[index as int].1 as nat == chain_value(first, (index + 1) as nat));
            assert(chain_value(first, (index + 1) as nat) == payload_width(
                chain_value(first, index as nat),
            ));
        }
        writer.write_bits(field, field_width)?;
    }
    Ok(writer)
}

/// Encodes `value` under a jumpstarter of `j_bits` bits and `tiers` tiers.
///
/// Fails with `InvalidEncoding` unless `j_bits` is between 1 and 8 and
/// `tiers` is at least 1, and with `ValueTooLarge` where the payload width of
/// `value` is beyond what the configuration can express. In every other case
/// the encoding is returned.
pub fn lotus_encode_u64(value: u64, j_bits: usize, tiers: usize) -> (result: Result<
    Vec<u8>,
    LotusError,
>)
    ensures
        encoded_view(result) == lotus_encoding(value as nat, j_bits as nat, tiers as nat),
{
    let (payload, width) = lotus_encode_value(value)?;
    let mut writer = match lotus_encode_header(width, j_bits, tiers) {
        Ok(writer) => writer,
        Err(error) => {
            return Err(error);
        },
    };
    writer.write_bits(payload, width)?;
    Ok(writer.into_bytes())
}

/// Encodes a value below 128 as the one byte that holds it, and any other
/// value under a jumpstarter of two bits and one tier.
pub fn lotus_encode_small(value: u64) -> (result: Result<Vec<u8>, LotusError>)
    ensures
        value < 128 ==> encoded_view(result) == Ok::<Seq<u8>, LotusError>(seq![value as u8]),
        value >= 128 ==> encoded_view(result) == lotus_encoding(value as nat, 2, 1),
{
    if value < 128 {
        let mut bytes: Vec<u8> = Vec::new();
        bytes.push(value as u8);
        proof {
            assert(bytes@ =~= seq![value as u8]);
        }
        Ok(bytes)
    } else {
        lotus_encode_u64(value, LOTUS_J2D1.0, LOTUS_J2D1.1)
    }
}

/// An encoding of a 64-bit value is at most as long as its jumpstarter and
/// 64 bits for each of its fields.
pub proof fn lemma_lotus_bits_len(value: nat, j_bits: nat, tiers: nat)
    requires
        value <= u64::MAX,
    ensures
        lotus_bits(value, j_bits, tiers).len() <= j_bits + 64 * (tiers + 1),
    decreases tiers,
{
    lemma_payload_fits(value);
    lemma_bits_of_len(payload_of(value), payload_width(value));
    if tiers == 0 {
        lemma_bits_of_len((payload_width(value) - 1) as nat, j_bits);
    } else {
        lemma_lotus_bits_len(payload_width(value), j_bits, (tiers - 1) as nat);
    }
}

/// The number of bits that encode `value` under a jumpstarter of `j_bits`
/// bits and `tiers` tiers: the value is encoded and decoded again, and the
/// bits that the decoder consumed are counted. Fails as encoding does.
pub fn lotus_encoded_bits(value: u64, j_bits: usize, tiers: usize) -> (result: Result<
    usize,
    LotusError,
>)
    requires
        lotus_bits(value as nat, j_bits as nat, tiers as nat).len() + 7 <= usize::MAX,
    ensures
        match lotus_encoding(value as nat, j_bits as nat, tiers as nat) {
            Ok(bytes) => result == Ok::<usize, LotusError>(
                lotus_bits(value as nat, j_bits as nat, tiers as nat).len() as usize,
            ),
            Err(error) => result == Err::<usize, LotusError>(error),
        },
{
    let encoded = match lotus_encode_u64(value, j_bits, tiers) {
        Ok(bytes) => bytes,
        Err(error) => {
            return Err(error);
        },
    };
    proof {
        lemma_packed_bits(lotus_bits(value as nat, j_bits as nat, tiers as nat));
        assert(encoded@ + Seq::<u8>::empty() =~= encoded@);
        crate::laws::lemma_round_trip(value, j_bits as nat, tiers as nat, Seq::empty());
    }
    match lotus_decode_u64(encoded.as_slice(), j_bits, tiers) {
        Ok((_, total_bits)) => Ok(total_bits),
        Err(error) => Err(error),
    }
}

/// A field wider than 64 bits stands for no 64-bit value, whatever it holds.
pub proof fn lemma_wide_field(payload: nat, width: nat)
    requires
        width > 64,
    ensures
        decoded_payload(payload, width) == Err::<u64, LotusError>(LotusError::ValueTooLarge),
{
    lemma_pow2_high();
    if width > 65 {
        lemma_pow2_strictly_increases(65, width);
    }
}

/// A width read from a field that is within the bound of some number of
/// tiers is within the bound of one tier more.
pub proof fn lemma_decoded_width_bound(payload: nat, width: nat, j_bits: nat, tiers: nat)
    requires
        j_bits >= 1,
        width <= width_bound(j_bits, tiers),
        payload < pow2(width),
        decoded_payload(payload, width) is Ok,
    ensures
        decoded_payload(payload, width)->Ok_0 <= width_bound(j_bits, tiers + 1),
{
    let bound = width_bound(j_bits, tiers);
    lemma_width_bound_grows(j_bits, tiers);
    lemma_pow2_unfold(width + 1);
    lemma_pow2_strictly_increases(0, width);
    lemma2_to64();
    if width < bound {
        lemma_pow2_strictly_increases(width + 1, bound + 1);
    }
}

/// Decodes the value that `bytes` starts with, under a jumpstarter of
/// `j_bits` bits and `tiers` tiers, and says how many bits encode it. Bytes
/// that follow the encoding are left alone.
///
/// No width that a header can name is beyond the bound of the
/// configuration, so no input fails for that reason.
pub fn lotus_decode_u64(bytes: &[u8], j_bits: usize, tiers: usize) -> (result: Result<
    (u64, usize),
    LotusError,
>)
    requires
        8 * bytes@.len() <= usize::MAX,
    ensures
        result == lotus_decoding(bytes@, j_bits as nat, tiers as nat),
{
    if j_bits < 1 || j_bits > 8 || tiers == 0 {
        return Err(LotusError::InvalidEncoding);
    }
    let max_width = max_width_for_config(j_bits, tiers);
    let mut reader = BitReader::new(bytes);
    let ghost bits = bytes_bits(bytes@);
    let start_bits = reader.bits_consumed();
    let jump_val = match reader.read_bits(j_bits) {
        Ok(value) => value,
        Err(error) => {
            return Err(error);
        },
    };
    proof {
        lemma2_to64();
        lemma_pow2_high();
        lemma_bits_value_bound(bits.subrange(0, j_bits as int));
        lemma_pow2_strictly_increases(j_bits as nat, 9);
        lemma_width_bound_monotonic(j_bits as nat, 0, tiers as nat);
    }
    let mut next_width: usize = jump_val as usize + 1;
    // Never taken: the jumpstarter names no width above `2^j_bits`.
    if next_width as u128 > max_width {
        return Err(LotusError::ValueTooLarge);
    }
    let mut done: usize = 0;
    while done < tiers
        invariant
            1 <= j_bits <= 8,
            done <= tiers,
            bits == bytes_bits(bytes@),
            bits.len() == 8 * bytes@.len(),
            8 * bytes@.len() <= usize::MAX,
            reader.input() == bytes@,
            reader.position() <= bits.len(),
            start_bits == 0,
            next_width >= 1,
            next_width <= width_bound(j_bits as nat, done as nat),
            width_bound(j_bits as nat, tiers as nat) <= largest_exact_bound() ==> max_width
                == width_bound(j_bits as nat, tiers as nat),
            width_bound(j_bits as nat, tiers as nat) > largest_exact_bound() ==> max_width
                == u128::MAX,
            lotus_decoding(bytes@, j_bits as nat, tiers as nat) == match decoded_fields(
                bits,
                reader.position(),
                next_width as nat,
                (tiers - done) as nat,
            ) {
                Err(error) => Err::<(u64, usize), LotusError>(error),
                Ok((value, end)) => Ok((value, end as usize)),
            },
        decreases tiers - done,
    {
        let ghost from = reader.position();
        let tier_payload = match reader.read_bits(next_width) {
            Ok(value) => value,
            Err(error) => {
                return Err(error);
            },
        };
        proof {
            if next_width > 64 {
                lemma_wide_field(tier_payload as nat, next_width as nat);
                lemma_wide_field(field_value(bits, from, next_width as nat), next_width as nat);
            }
        }
        let width_value: u64 = match lotus_decode_value(tier_payload, next_width) {
            Ok(value) => value,
            Err(error) => {
                return Err(error);
            },
        };
        proof {
            lemma_pow2_high();
            lemma_bits_value_bound(bits.subrange(from as int, from + next_width));
            lemma_decoded_width_bound(
                tier_payload as nat,
                next_width as nat,
                j_bits as nat,
                done as nat,
            );
            lemma_width_bound_monotonic(j_bits as nat, (done + 1) as nat, tiers as nat);
        }
        if width_value == 0 {
            return Err(LotusError::InvalidEncoding);
        }
        // Never taken: see `lemma_decoded_width_bound`.
        if width_value as u128 > max_width {
            return Err(LotusError::ValueTooLarge);
        }
        // No input holds a field wider than the machine's word can count.
        if width_value > usize::MAX as u64 {
            proof {
                assert(decoded_fields(
                    bits,
                    from + next_width as nat,
                    width_value as nat,
                    (tiers - done - 1) as nat,
                ) == Err::<(u64, nat), LotusError>(LotusError::UnexpectedEof));
            }
            return Err(LotusError::UnexpectedEof);
        }
        next_width = width_value as usize;
        done = done + 1;
    }
    let ghost from = reader.position();
    let payload = match reader.read_bits(next_width) {
        Ok(value) => value,
        Err(error) => {
            return Err(error);
        },
    };
    proof {
        if next_width > 64 {
            lemma_wide_field(payload as nat, next_width as nat);
            lemma_wide_field(field_value(bits, from, next_width as nat), next_width as nat);
        }
    }
    let value = match lotus_decode_value(payload, next_width) {
        Ok(value) => value,
        Err(error) => {
            return Err(error);
        },
    };
    let total_bits = reader.bits_consumed() - start_bits;
    Ok((value, total_bits))
}

} // verus!
