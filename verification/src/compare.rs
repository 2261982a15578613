//! Two other variable-length codes, to compare encoded sizes against.

use vstd::prelude::*;
use vstd::std_specs::bits::u64_leading_zeros;

verus! {

/// The LEB128 encoding of `value`: seven bits to a byte, the lowest seven
/// first, and the high bit of a byte set where more bytes follow.
pub open spec fn leb128(value: nat) -> Seq<u8>
    decreases value,
{
    if value < 128 {
        seq![value as u8]
    } else {
        seq![(128 + value % 128) as u8] + leb128(value / 128)
    }
}

/// Encodes `value` as LEB128.
pub fn leb128_encode(value: u64) -> (out: Vec<u8>)
    ensures
        out@ == leb128(value as nat),
{
    let mut out: Vec<u8> = Vec::new();
    let mut rest: u64 = value;
    loop
        invariant_except_break
            out@ + leb128(rest as nat) == leb128(value as nat),
        ensures
            out@ == leb128(value as nat),
        decreases rest,
    {
        let ghost before = out@;
        let low: u8 = (rest & 0x7f) as u8;
        let above: u64 = rest >> 7;
        assert(rest & 0x7f == rest % 128 && rest >> 7 == rest / 128) by (bit_vector);
        if above != 0 {
            assert(low | 0x80 == low + 128) by (bit_vector)
                requires
                    low < 128,
            ;
            out.push(low | 0x80);
            proof {
                assert(out@ + leb128(above as nat) =~= before + leb128(rest as nat));
            }
            rest = above;
        } else {
            out.push(low);
            proof {
                assert(out@ =~= before + leb128(rest as nat));
            }
            break;
        }
    }
    out
}

/// No 64-bit value has more than 64 leading zeros.
pub proof fn lemma_leading_zeros_bound(value: u64)
    ensures
        u64_leading_zeros(value) <= 64,
    decreases value,
{
    reveal(u64_leading_zeros);
    if value != 0 {
        lemma_leading_zeros_bound(value / 2);
    }
}

/// A bit length above one has itself a bit length above one: the chain of
/// lengths that `elias_delta_len` follows never comes to one from above.
pub proof fn lemma_length_chain_stays_above_one(bits: u64)
    requires
        bits > 1,
    ensures
        64 - u64_leading_zeros(bits) > 1,
{
    reveal_with_fuel(u64_leading_zeros, 3);
    lemma_leading_zeros_bound(bits / 4);
}

/// The length estimate of the Elias delta code that the size comparison
/// uses, for a value of at most one significant bit: one bit.
///
/// The estimate adds the bit length of the value, then the bit length of
/// that length, and so on while the length is above one. From two significant
/// bits on the lengths settle on two and the sum never ends, so such values
/// are left out.
pub fn elias_delta_len(value: u64) -> (len: usize)
    requires
        value <= 1,
    ensures
        len == 1,
{
    proof {
        reveal_with_fuel(u64_leading_zeros, 3);
    }
    let mut len: usize = 1;
    let mut bits: usize = 64 - value.leading_zeros() as usize;
    while bits > 1
        invariant
            bits <= 1,
            len == 1,
        decreases bits,
    {
        len = len + bits;
        bits = 64 - (bits as u64).leading_zeros() as usize;
    }
    len
}

} // verus!
