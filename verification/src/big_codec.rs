//! Encoding of values of any size.
//!
//! The header of such an encoding is the header of a 64-bit value's
//! encoding; only the payload can be wider than 64 bits.

use vstd::prelude::*;
use vstd::arithmetic::div_mod::lemma_basic_div;
use vstd::arithmetic::power2::{
    lemma2_to64, lemma_pow2_pos, lemma_pow2_strictly_increases, lemma_pow2_unfold, pow2,
};
use vstd::bits::{lemma_u64_low_bits_mask_is_mod, lemma_u64_shl_is_mul, low_bits_mask};
use crate::bits::{
    bits_of, bytes_bits, lemma_bits_of_len, lemma_bits_of_mod, lemma_bits_of_split,
    lemma_bits_of_value, lemma_bytes_bits_chunk, lemma_bytes_bits_len, lemma_bytes_bits_window,
    lemma_zero_bits_value, zero_bits,
};
use crate::bucket::{
    bucket_start, lemma_bucket_width_le, lemma_bucket_width_unique, lemma_payload_fits,
    payload_of, payload_width,
};
use crate::codec::{encoded_view, lotus_encode_header, lotus_encoding};
use crate::config::valid_config;
use crate::error::LotusError;
use crate::magnitude::{
    be_value, bit_length, lemma_be_value_bits, lemma_bit_length_bounds,
    lemma_minimal_bytes_length, Magnitude,
};
use crate::writer::BitWriter;

verus! {

/// What encoding a value of any size gives: what `lotus_encoding` says,
/// unless the payload width of the value does not fit the machine's word.
pub open spec fn lotus_big_encoding(value: nat, j_bits: nat, tiers: nat) -> Result<
    Seq<u8>,
    LotusError,
> {
    if !valid_config(j_bits, tiers) {
        Err(LotusError::InvalidEncoding)
    } else if payload_width(value) >= usize::MAX {
        Err(LotusError::ValueTooLarge)
    } else {
        lotus_encoding(value, j_bits, tiers)
    }
}

/// A value of 64 bits has the same encoding whichever encoder takes it.
pub proof fn lemma_big_encoding_agrees(value: u64, j_bits: nat, tiers: nat)
    ensures
        lotus_big_encoding(value as nat, j_bits, tiers) == lotus_encoding(
            value as nat,
            j_bits,
            tiers,
        ),
{
    lemma_payload_fits(value as nat);
}

/// A number below a power of two has no more bits than the exponent.
pub proof fn lemma_bit_length_le(value: nat, width: nat)
    requires
        value < pow2(width),
    ensures
        bit_length(value) <= width,
{
    lemma_bit_length_bounds(value);
    if value > 0 && bit_length(value) > width {
        if bit_length(value) - 1 > width {
            lemma_pow2_strictly_increases(width, (bit_length(value) - 1) as nat);
        }
    }
}

/// The run of `width` bits of a number with fewer bits starts with zeros.
pub proof fn lemma_bits_of_short(value: nat, width: nat, length: nat)
    requires
        value < pow2(length),
        length <= width,
    ensures
        bits_of(value, width) == zero_bits((width - length) as nat) + bits_of(value, length),
{
    lemma_bits_of_split(value, (width - length) as nat, length);
    lemma_pow2_pos(length);
    lemma_basic_div(value as int, pow2(length) as int);
    lemma_zero_bits_value((width - length) as nat);
}

/// The last `count` bits of big-endian bytes are the low `count` bits of the
/// number that the bytes spell.
pub proof fn lemma_low_bits_of_bytes(bytes: Seq<u8>, count: nat)
    requires
        count <= 8 * bytes.len(),
    ensures
        bytes_bits(bytes).len() == 8 * bytes.len(),
        bytes_bits(bytes).subrange(8 * bytes.len() - count, 8 * bytes.len() as int) == bits_of(
            be_value(bytes),
            count,
        ),
{
    let all = bytes_bits(bytes);
    let above = (8 * bytes.len() - count) as nat;
    lemma_bytes_bits_len(bytes);
    lemma_be_value_bits(bytes);
    lemma_bits_of_value(all);
    lemma_bits_of_split(be_value(bytes), above, count);
    lemma_bits_of_len(be_value(bytes) / pow2(count), above);
    lemma_bits_of_len(be_value(bytes), count);
    assert(all.subrange(8 * bytes.len() - count, 8 * bytes.len() as int) =~= bits_of(
        be_value(bytes),
        count,
    ));
}

/// Splits `value` into the payload and the width under which it is filed.
///
/// Fails with `ValueTooLarge` where the width does not fit the machine's
/// word, and in no other case.
pub fn lotus_encode_value_biguint(value: &Magnitude) -> (result: Result<
    (Magnitude, usize),
    LotusError,
>)
    ensures
        payload_width(value@) < usize::MAX ==> result is Ok && result->Ok_0.1
            == payload_width(value@) && result->Ok_0.0@ == payload_of(value@),
        payload_width(value@) >= usize::MAX ==> result is Err && result->Err_0
            == LotusError::ValueTooLarge,
{
    let one = Magnitude::from_u8(1);
    let two = Magnitude::from_u8(2);
    let three = Magnitude::from_u8(3);
    let m = value.plus(&one);
    let ghost limit = bit_length(m@);
    let mut width: usize = 1;
    proof {
        lemma2_to64();
        lemma_bit_length_bounds(m@);
    }
    loop
        invariant
            one@ == 1,
            two@ == 2,
            three@ == 3,
            m@ == value@ + 1,
            limit == bit_length(m@),
            m@ < pow2(limit),
            1 <= width,
            width <= limit,
            bucket_start(width as nat) <= m@,
        decreases limit - width,
    {
        if width == usize::MAX {
            proof {
                lemma_bucket_width_le(m@, (width - 1) as nat);
                lemma2_to64();
            }
            return Err(LotusError::ValueTooLarge);
        }
        let width_plus_one: usize = width + 1;
        proof {
            lemma_pow2_strictly_increases(0, width as nat);
            lemma_pow2_strictly_increases(0, width_plus_one as nat);
            lemma_pow2_unfold(width_plus_one as nat);
            lemma2_to64();
        }
        let start = Magnitude::power_of_two(width).minus(&two);
        let end = Magnitude::power_of_two(width_plus_one).minus(&three);
        if start.at_most(&m) && m.at_most(&end) {
            proof {
                lemma_bucket_width_unique(m@, width as nat);
            }
            let payload = m.minus(&start);
            return Ok((payload, width));
        }
        proof {
            if width > limit {
                lemma_pow2_strictly_increases(limit, width as nat);
            }
        }
        width = width_plus_one;
    }
}

/// Writes `value` as a run of exactly `width` bits, most significant first,
/// with zero bits in front of the bits of the value.
///
/// Fails with `InvalidEncoding`, and writes nothing, where the value has
/// more than `width` bits.
pub fn write_biguint_bits(writer: &mut BitWriter, value: &Magnitude, width: usize) -> (result:
    Result<(), LotusError>)
    ensures
        bit_length(value@) > width ==> result is Err && result->Err_0
            == LotusError::InvalidEncoding && final(writer)@ == old(writer)@,
        bit_length(value@) <= width ==> result is Ok && final(writer)@ == old(writer)@ + bits_of(
            value@,
            width as nat,
        ),
{
    let bit_count: u64 = value.bits();
    if bit_count > width as u64 {
        return Err(LotusError::InvalidEncoding);
    }
    let bit_len: usize = bit_count as usize;
    let ghost zeros = (width - bit_len) as nat;
    let mut remaining_zeros: usize = width - bit_len;
    proof {
        assert(writer@ + zero_bits(0) =~= writer@);
    }
    while remaining_zeros > 0
        invariant
            remaining_zeros <= zeros,
            zeros == width - bit_len,
            writer@ == old(writer)@ + zero_bits((zeros - remaining_zeros) as nat),
        decreases remaining_zeros,
    {
        let chunk: usize = if remaining_zeros < 8 {
            remaining_zeros
        } else {
            8
        };
        proof {
            lemma_zero_bits_value(chunk as nat);
            assert(zero_bits((zeros - remaining_zeros) as nat) + zero_bits(chunk as nat)
                =~= zero_bits((zeros - remaining_zeros + chunk) as nat));
        }
        writer.write_bits(0, chunk)?;
        remaining_zeros = remaining_zeros - chunk;
    }
    proof {
        lemma_bit_length_bounds(value@);
        lemma_bits_of_short(value@, width as nat, bit_len as nat);
    }
    if bit_len == 0 {
        proof {
            assert(bits_of(value@, 0) =~= Seq::<bool>::empty());
            assert(writer@ + bits_of(value@, 0) =~= writer@);
        }
        return Ok(());
    }
    let bytes = value.to_bytes_be();
    let ghost all = bytes_bits(bytes@);
    let ghost from = 8 * bytes@.len() - bit_len;
    proof {
        lemma_minimal_bytes_length(bytes@);
        lemma_low_bits_of_bytes(bytes@, bit_len as nat);
        assert(all.subrange(from, from) =~= Seq::<bool>::empty());
    }
    let leading_bits: usize = bit_len % 8;
    let mut index: usize = 0;
    if leading_bits != 0 {
        proof {
            lemma2_to64();
            lemma_pow2_strictly_increases(leading_bits as nat, 8);
            lemma_u64_shl_is_mul(1, leading_bits as u64);
            lemma_u64_low_bits_mask_is_mod(bytes@[0] as u64, leading_bits as nat);
            lemma_bytes_bits_window(bytes@, 1, leading_bits as nat, leading_bits as nat);
            lemma_bits_of_mod(bytes@[0] as nat, leading_bits as nat);
        }
        let mask: u64 = (1u64 << (leading_bits as u64)) - 1;
        let part: u64 = (bytes[0] as u64) & mask;
        writer.write_bits(part, leading_bits)?;
        index = 1;
        proof {
            assert(leading_bits == bit_len - 8 * (bytes@.len() - 1));
            assert(mask == low_bits_mask(leading_bits as nat) as u64);
            assert(part as nat == bytes@[0] as nat % pow2(leading_bits as nat));
            assert((bytes@[0] as nat / pow2(0)) % pow2(leading_bits as nat) == part as nat);
            assert(all.subrange(from, 8) =~= bits_of(part as nat, leading_bits as nat));
        }
    }
    proof {
        assert(writer@ =~= old(writer)@ + zero_bits(zeros) + all.subrange(from, 8 * index));
    }
    while index < bytes.len()
        invariant
            index <= bytes@.len(),
            all == bytes_bits(bytes@),
            all.len() == 8 * bytes@.len(),
            from == 8 * bytes@.len() - bit_len,
            0 <= from <= 8 * index,
            writer@ == old(writer)@ + zero_bits(zeros) + all.subrange(from, 8 * index),
        decreases bytes@.len() - index,
    {
        proof {
            lemma_bytes_bits_chunk(bytes@, index as int);
            assert(all.subrange(from, 8 * index) + all.subrange(8 * index, 8 * index + 8)
                =~= all.subrange(from, 8 * (index + 1)));
        }
        writer.write_bits(bytes[index] as u64, 8)?;
        index = index + 1;
    }
    proof {
        assert(writer@ =~= old(writer)@ + (zero_bits(zeros) + bits_of(value@, bit_len as nat)));
    }
    Ok(())
}

/// Encodes a value of any size under a jumpstarter of `j_bits` bits and
/// `tiers` tiers.
///
/// Fails with `InvalidEncoding` unless `j_bits` is between 1 and 8 and
/// `tiers` is at least 1, and with `ValueTooLarge` where the payload width of
/// the value is beyond what the configuration can express or does not fit
/// the machine's word.
pub fn lotus_encode_biguint(value: &Magnitude, j_bits: usize, tiers: usize) -> (result: Result<
    Vec<u8>,
    LotusError,
>)
    ensures
        encoded_view(result) == lotus_big_encoding(value@, j_bits as nat, tiers as nat),
{
    if j_bits < 1 || j_bits > 8 || tiers == 0 {
        return Err(LotusError::InvalidEncoding);
    }
    let (payload, width) = match lotus_encode_value_biguint(value) {
        Ok(pair) => pair,
        Err(error) => {
            return Err(error);
        },
    };
    let mut writer = match lotus_encode_header(width, j_bits, tiers) {
        Ok(writer) => writer,
        Err(error) => {
            return Err(error);
        },
    };
    proof {
        lemma_payload_fits(value@);
        lemma_bit_length_le(payload@, width as nat);
    }
    write_biguint_bits(&mut writer, &payload, width)?;
    Ok(writer.into_bytes())
}

} // verus!
