//! The payload codec: one level of doubling-range bucketing.
//!
//! The numbers from zero on are cut into buckets. The bucket of width `w`
//! holds `2^w` numbers, from `2^w - 2` to `2^(w+1) - 3`, so each bucket
//! starts where the one before it ends and is twice as large. A value `v` is
//! filed under `v + 1`: its width is that of the bucket that holds `v + 1`,
//! its payload is the place of `v + 1` in that bucket, and the payload fits
//! in exactly `width` bits.

use vstd::prelude::*;
use vstd::arithmetic::power2::{
    lemma2_to64, lemma2_to64_rest, lemma_pow2_adds, lemma_pow2_pos,
    lemma_pow2_strictly_increases, lemma_pow2_unfold, pow2,
};
use crate::error::LotusError;

verus! {

/// The first number of the bucket of width `width`.
pub open spec fn bucket_start(width: nat) -> int {
    pow2(width) - 2
}

/// The last number of the bucket of width `width`.
pub open spec fn bucket_end(width: nat) -> int {
    pow2(width + 1) - 3
}

/// The width of the bucket that holds `m`: the one number `w >= 1` with
/// `bucket_start(w) <= m <= bucket_end(w)`.
pub open spec fn bucket_width(m: nat) -> nat
    decreases m,
{
    if m < 2 {
        1
    } else {
        1 + bucket_width(((m - 2) / 2) as nat)
    }
}

/// The width of the payload of `value`.
pub open spec fn payload_width(value: nat) -> nat {
    bucket_width(value + 1)
}

/// The payload of `value`: the place of `value + 1` in its bucket.
pub open spec fn payload_of(value: nat) -> nat {
    (value + 1 - bucket_start(payload_width(value))) as nat
}

/// What a payload of `width` bits stands for, as far as it stands for a
/// 64-bit value.
pub open spec fn decoded_payload(payload: nat, width: nat) -> Result<u64, LotusError> {
    let m = bucket_start(width) + payload;
    if width == 0 {
        Err(LotusError::ValueTooLarge)
    } else if m == 0 {
        Err(LotusError::InvalidEncoding)
    } else if m - 1 > u64::MAX {
        Err(LotusError::ValueTooLarge)
    } else {
        Ok((m - 1) as u64)
    }
}

/// Every number lies in the bucket whose width `bucket_width` gives.
pub proof fn lemma_bucket_width_holds(m: nat)
    ensures
        bucket_width(m) >= 1,
        bucket_start(bucket_width(m)) <= m <= bucket_end(bucket_width(m)),
    decreases m,
{
    lemma2_to64();
    if m >= 2 {
        let inner = ((m - 2) / 2) as nat;
        lemma_bucket_width_holds(inner);
        lemma_pow2_unfold(bucket_width(inner) + 1);
        lemma_pow2_unfold(bucket_width(inner) + 2);
    }
}

/// The buckets are in order: a wider bucket starts after a narrower one ends.
pub proof fn lemma_buckets_ordered(narrow: nat, wide: nat)
    requires
        narrow < wide,
    ensures
        bucket_end(narrow) < bucket_start(wide),
{
    if narrow + 1 < wide {
        lemma_pow2_strictly_increases(narrow + 1, wide);
    }
}

/// No number lies in two buckets.
pub proof fn lemma_bucket_width_unique(m: nat, width: nat)
    requires
        width >= 1,
        bucket_start(width) <= m <= bucket_end(width),
    ensures
        bucket_width(m) == width,
{
    lemma_bucket_width_holds(m);
    let found = bucket_width(m);
    if found < width {
        lemma_buckets_ordered(found, width);
    } else if width < found {
        lemma_buckets_ordered(width, found);
    }
}

/// A number's width stays under a bound exactly when the number does not
/// pass the end of the bound's bucket.
pub proof fn lemma_bucket_width_le(m: nat, bound: nat)
    requires
        bound >= 1,
    ensures
        bucket_width(m) <= bound <==> m <= bucket_end(bound),
{
    lemma_bucket_width_holds(m);
    let found = bucket_width(m);
    if found < bound {
        lemma_buckets_ordered(found, bound);
        lemma_pow2_strictly_increases(bound, bound + 1);
    } else if bound < found {
        lemma_buckets_ordered(bound, found);
    }
}

/// Bucket boundaries: the first and the last number of a bucket have its
/// width, and the number after the last has the next width. The next bucket
/// starts right there and is twice as large.
///
/// A value is filed under the number after it, so the values that select
/// the width are those from `bucket_start(width) - 1` to
/// `bucket_end(width) - 1`, and the value `bucket_end(width)` selects the
/// next width.
pub proof fn lemma_bucket_boundaries(width: nat)
    requires
        width >= 1,
    ensures
        bucket_start(width) >= 0,
        bucket_width(bucket_start(width) as nat) == width,
        bucket_width(bucket_end(width) as nat) == width,
        bucket_width((bucket_end(width) + 1) as nat) == width + 1,
        bucket_end(width) + 1 == bucket_start(width + 1),
        bucket_end(width) - bucket_start(width) + 1 == pow2(width),
        bucket_end(width + 1) - bucket_start(width + 1) + 1 == 2 * (bucket_end(width)
            - bucket_start(width) + 1),
        width >= 2 ==> payload_width((bucket_start(width) - 1) as nat) == width,
        payload_width(bucket_start(width) as nat) == width,
        payload_width((bucket_end(width) - 1) as nat) == width,
        payload_width(bucket_end(width) as nat) == width + 1,
{
    lemma2_to64();
    lemma_pow2_unfold(width + 1);
    lemma_pow2_unfold(width + 2);
    lemma_pow2_pos(width);
    if width > 1 {
        lemma_pow2_strictly_increases(1, width);
    }
    lemma_bucket_width_unique(bucket_start(width) as nat, width);
    lemma_bucket_width_unique(bucket_end(width) as nat, width);
    lemma_bucket_width_unique((bucket_end(width) + 1) as nat, width + 1);
    lemma_bucket_width_unique((bucket_start(width) + 1) as nat, width);
}

/// A payload is smaller than two to the power of its width, and a 64-bit
/// value has a width of at most 64.
pub proof fn lemma_payload_fits(value: nat)
    ensures
        payload_width(value) >= 1,
        payload_of(value) < pow2(payload_width(value)),
        payload_of(value) == value + 1 - bucket_start(payload_width(value)),
        value <= u64::MAX ==> payload_width(value) <= 64,
{
    lemma_bucket_width_holds(value + 1);
    lemma_pow2_unfold(payload_width(value) + 1);
    if value <= u64::MAX {
        lemma2_to64();
        lemma2_to64_rest();
        lemma_pow2_unfold(65);
        lemma_bucket_width_le(value + 1, 64);
    }
}

/// Decoding the payload of a 64-bit value, at the value's width, gives the
/// value back.
pub proof fn lemma_payload_round_trip(value: u64)
    ensures
        decoded_payload(payload_of(value as nat), payload_width(value as nat)) == Ok::<
            u64,
            LotusError,
        >(value),
{
    lemma_payload_fits(value as nat);
}

/// The two largest powers of two that the codec computes with.
pub proof fn lemma_pow2_high()
    ensures
        pow2(65) == 0x2_0000_0000_0000_0000,
        pow2(127) == 0x8000_0000_0000_0000_0000_0000_0000_0000,
{
    lemma2_to64();
    lemma2_to64_rest();
    lemma_pow2_adds(64, 1);
    lemma_pow2_adds(64, 63);
}

/// Shifting one to the left gives a power of two.
pub proof fn lemma_one_shl(exp: u32)
    requires
        exp < 128,
    ensures
        (1u128 << exp) == pow2(exp as nat),
    decreases exp,
{
    lemma2_to64();
    if exp == 0 {
        assert(1u128 << 0u32 == 1) by (bit_vector);
    } else {
        let below = (exp - 1) as u32;
        lemma_one_shl(below);
        assert((1u128 << exp) == 2 * (1u128 << below)) by (bit_vector)
            requires
                0 < exp < 128,
                below == exp - 1,
        ;
        lemma_pow2_unfold(exp as nat);
    }
}

/// Splits `value` into the payload and the width under which it is filed.
/// This never fails.
pub fn lotus_encode_value(value: u64) -> (result: Result<(u64, usize), LotusError>)
    ensures
        result matches Ok((payload, width)) && {
            &&& width == payload_width(value as nat)
            &&& payload == payload_of(value as nat)
            &&& 1 <= width <= 64
            &&& bucket_start(width as nat) <= value + 1 <= bucket_end(width as nat)
            &&& payload == value + 1 - bucket_start(width as nat)
            &&& (payload as nat) < pow2(width as nat)
        },
{
    let m: u128 = value as u128 + 1;
    let mut width: usize = 1;
    let mut start: u128 = 0;
    let mut end: u128 = 1;
    proof {
        lemma2_to64();
        lemma2_to64_rest();
    }
    while m > end
        invariant
            1 <= width <= 64,
            m == value + 1,
            start == bucket_start(width as nat),
            end == bucket_end(width as nat),
            start <= m,
        decreases 64 - width,
    {
        proof {
            lemma2_to64();
            lemma2_to64_rest();
            lemma_pow2_unfold(65);
            lemma_pow2_unfold((width + 2) as nat);
            if width < 64 {
                lemma_pow2_strictly_increases((width + 1) as nat, 65);
            }
        }
        width = width + 1;
        start = end + 1;
        end = 2 * end + 3;
    }
    proof {
        lemma_bucket_width_unique(m as nat, width as nat);
        lemma_payload_fits(value as nat);
    }
    Ok(((m - start) as u64, width))
}

/// Gives back the value that was filed under `width` with `payload`.
///
/// Fails with `ValueTooLarge` for a width of zero and for a value that does
/// not fit in 64 bits, and with `InvalidEncoding` for the one payload that
/// stands for no value (zero, at width one).
pub fn lotus_decode_value(payload: u64, width: usize) -> (result: Result<u64, LotusError>)
    ensures
        result == decoded_payload(payload as nat, width as nat),
{
    if width == 0 {
        return Err(LotusError::ValueTooLarge);
    }
    if width >= 128 {
        proof {
            lemma_pow2_high();
            lemma_pow2_strictly_increases(65, width as nat);
        }
        return Err(LotusError::ValueTooLarge);
    }
    proof {
        lemma2_to64();
        lemma2_to64_rest();
        lemma_pow2_high();
        lemma_one_shl(width as u32);
        lemma_pow2_strictly_increases(0, width as nat);
        if width < 127 {
            lemma_pow2_strictly_increases(width as nat, 127);
        }
    }
    let start: u128 = (1u128 << (width as u32)) - 2;
    let m: u128 = payload as u128 + start;
    if m == 0 {
        return Err(LotusError::InvalidEncoding);
    }
    let value: u128 = m - 1;
    if value > u64::MAX as u128 {
        return Err(LotusError::ValueTooLarge);
    }
    Ok(value as u64)
}

} // verus!
