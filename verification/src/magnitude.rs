//! Unsigned integers of any size, with the arithmetic of `num_bigint`.
//!
//! A magnitude is held as its big-endian bytes in the shortest form, the one
//! that `BigUint::to_bytes_be` gives. The arithmetic itself is done by
//! `num_bigint::BigUint`; this module states what each operation returns.

use vstd::prelude::*;
use vstd::arithmetic::power2::{
    lemma2_to64, lemma_pow2_adds, lemma_pow2_pos, lemma_pow2_strictly_increases,
    lemma_pow2_unfold, pow2,
};
use crate::bits::{
    bits_of, bits_value, bytes_bits, lemma_bits_of_len, lemma_bits_value_bound,
    lemma_bits_value_concat, lemma_bits_value_fits, lemma_bytes_bits_len,
};

verus! {

/// The number that big-endian bytes spell.
pub open spec fn be_value(bytes: Seq<u8>) -> nat
    decreases bytes.len(),
{
    if bytes.len() == 0 {
        0
    } else {
        256 * be_value(bytes.drop_last()) + bytes.last() as nat
    }
}

/// Whether bytes are the shortest big-endian form of their number: at least
/// one byte, and no zero byte in front of another byte.
pub open spec fn minimal_bytes(bytes: Seq<u8>) -> bool {
    bytes.len() >= 1 && (bytes.len() == 1 || bytes[0] != 0)
}

/// The fewest bits that can express `value`.
pub open spec fn bit_length(value: nat) -> nat
    decreases value,
{
    if value == 0 {
        0
    } else {
        1 + bit_length(value / 2)
    }
}

/// The number that bytes spell is the number that their bits spell.
pub proof fn lemma_be_value_bits(bytes: Seq<u8>)
    ensures
        be_value(bytes) == bits_value(bytes_bits(bytes)),
        be_value(bytes) < pow2(8 * bytes.len()),
    decreases bytes.len(),
{
    lemma2_to64();
    lemma_bytes_bits_len(bytes);
    lemma_bits_value_bound(bytes_bits(bytes));
    if bytes.len() > 0 {
        let front = bytes.drop_last();
        let last = bits_of(bytes.last() as nat, 8);
        lemma_be_value_bits(front);
        lemma_bits_value_concat(bytes_bits(front), last);
        lemma_bits_value_fits(bytes.last() as nat, 8);
        lemma_bits_of_len(bytes.last() as nat, 8);
        assert(bytes_bits(bytes) == bytes_bits(front) + last);
        assert(bits_value(bytes_bits(bytes)) == bits_value(bytes_bits(front)) * 256
            + bytes.last() as nat);
    }
}

/// A number lies below two to the power of its bit length, and not below
/// the power before it.
pub proof fn lemma_bit_length_bounds(value: nat)
    ensures
        value < pow2(bit_length(value)),
        value > 0 ==> pow2((bit_length(value) - 1) as nat) <= value,
    decreases value,
{
    lemma2_to64();
    if value > 0 {
        lemma_bit_length_bounds(value / 2);
        lemma_pow2_unfold(bit_length(value));
        if value / 2 > 0 {
            lemma_pow2_unfold((bit_length(value) - 1) as nat);
        }
    }
}

/// Bytes in the shortest form that spell a number other than zero start
/// with a byte other than zero, so the number has more bits than the bytes
/// after the first can hold.
pub proof fn lemma_minimal_bytes_length(bytes: Seq<u8>)
    requires
        minimal_bytes(bytes),
        be_value(bytes) > 0,
    ensures
        bytes[0] != 0,
        8 * (bytes.len() - 1) < bit_length(be_value(bytes)) <= 8 * bytes.len(),
{
    lemma_leading_byte(bytes);
    lemma_be_value_bits(bytes);
    lemma_bit_length_bounds(be_value(bytes));
    let length = bit_length(be_value(bytes));
    let low = (8 * (bytes.len() - 1)) as nat;
    lemma_pow2_pos(low);
    assert(pow2(low) <= be_value(bytes)) by (nonlinear_arith)
        requires
            be_value(bytes) >= bytes[0] * pow2(low),
            bytes[0] >= 1,
            pow2(low) > 0,
    ;
    if length <= low {
        if length < low {
            lemma_pow2_strictly_increases(length, low);
        }
    }
    if length > 8 * bytes.len() {
        lemma_pow2_strictly_increases(8 * bytes.len(), (length - 1) as nat);
    }
}

/// The first byte counts for two to the power of the bits after it.
pub proof fn lemma_leading_byte(bytes: Seq<u8>)
    requires
        bytes.len() >= 1,
    ensures
        be_value(bytes) >= bytes[0] * pow2((8 * (bytes.len() - 1)) as nat),
        be_value(bytes) > 0 && minimal_bytes(bytes) ==> bytes[0] != 0,
    decreases bytes.len(),
{
    lemma2_to64();
    if bytes.len() == 1 {
        assert(bytes.drop_last().len() == 0);
        assert(be_value(bytes.drop_last()) == 0);
        assert(be_value(bytes) == bytes[0] as nat);
        assert(bytes[0] * pow2(0) == bytes[0] as nat);
    } else {
        let front = bytes.drop_last();
        lemma_leading_byte(front);
        let below = (8 * (front.len() - 1)) as nat;
        lemma_pow2_adds(below, 8);
        assert(front[0] == bytes[0]);
        assert(below + 8 == 8 * (bytes.len() - 1));
        assert(256 * (bytes[0] * pow2(below)) == bytes[0] * (pow2(below) * 256))
            by (nonlinear_arith);
        assert(be_value(bytes) >= 256 * (bytes[0] * pow2(below)));
        assert(pow2((8 * (bytes.len() - 1)) as nat) == pow2(below) * 256);
    }
}

/// `BigUint::from_bytes_be` followed by `BigUint::to_bytes_be`: the bytes of
/// the same number in the shortest form. The first reads any bytes as a
/// big-endian number, the empty slice as zero; the second gives the one byte
/// zero for zero and else starts with the highest byte that is not zero.
#[verifier::external_body]
fn big_shortest(bytes: &[u8]) -> (out: Vec<u8>)
    ensures
        be_value(out@) == be_value(bytes@),
        minimal_bytes(out@),
{
    num_bigint::BigUint::from_bytes_be(bytes).to_bytes_be()
}

/// `BigUint + BigUint`: the sum of the two numbers, which never fails.
#[verifier::external_body]
fn big_sum(left: &[u8], right: &[u8]) -> (out: Vec<u8>)
    ensures
        be_value(out@) == be_value(left@) + be_value(right@),
        minimal_bytes(out@),
{
    let left = num_bigint::BigUint::from_bytes_be(left);
    let right = num_bigint::BigUint::from_bytes_be(right);
    (left + right).to_bytes_be()
}

/// `BigUint - BigUint`: the difference of the two numbers. The crate panics
/// where the second is the larger one, so that case is left out.
#[verifier::external_body]
fn big_difference(left: &[u8], right: &[u8]) -> (out: Vec<u8>)
    requires
        be_value(left@) >= be_value(right@),
    ensures
        be_value(out@) == be_value(left@) - be_value(right@),
        minimal_bytes(out@),
{
    let left = num_bigint::BigUint::from_bytes_be(left);
    let right = num_bigint::BigUint::from_bytes_be(right);
    (left - right).to_bytes_be()
}

/// `BigUint::one() << exponent`: two to the power of `exponent`.
#[verifier::external_body]
fn big_power_of_two(exponent: usize) -> (out: Vec<u8>)
    ensures
        be_value(out@) == pow2(exponent as nat),
        minimal_bytes(out@),
{
    let one: num_bigint::BigUint = num_traits::One::one();
    (one << exponent).to_bytes_be()
}

/// `BigUint <= BigUint`: whether the first number is at most the second.
#[verifier::external_body]
fn big_at_most(left: &[u8], right: &[u8]) -> (holds: bool)
    ensures
        holds == (be_value(left@) <= be_value(right@)),
{
    num_bigint::BigUint::from_bytes_be(left) <= num_bigint::BigUint::from_bytes_be(right)
}

/// `BigUint::bits`: the fewest bits that can express the number, zero for
/// zero.
#[verifier::external_body]
fn big_bit_count(bytes: &[u8]) -> (count: u64)
    ensures
        count == bit_length(be_value(bytes@)),
{
    num_bigint::BigUint::from_bytes_be(bytes).bits()
}

/// An unsigned integer of any size.
#[derive(Debug)]
pub struct Magnitude {
    bytes: Vec<u8>,
}

impl View for Magnitude {
    type V = nat;

    /// The number itself.
    closed spec fn view(&self) -> nat {
        be_value(self.bytes@)
    }
}

impl Clone for Magnitude {
    /// The same number once more.
    fn clone(&self) -> (copy: Self)
        ensures
            copy@ == self@,
    {
        proof {
            use_type_invariant(self);
        }
        let bytes = self.bytes.clone();
        assert(bytes@ =~= self.bytes@);
        Magnitude { bytes }
    }
}

impl Magnitude {
    #[verifier::type_invariant]
    spec fn well_formed(self) -> bool {
        minimal_bytes(self.bytes@)
    }

    /// The number that `bytes` spell in big-endian order. Leading zero bytes
    /// count for nothing, and no bytes at all spell zero.
    pub fn from_bytes_be(bytes: &[u8]) -> (number: Self)
        ensures
            number@ == be_value(bytes@),
    {
        Magnitude { bytes: big_shortest(bytes) }
    }

    /// The number as the shortest run of big-endian bytes.
    pub fn to_bytes_be(&self) -> (bytes: Vec<u8>)
        ensures
            be_value(bytes@) == self@,
            minimal_bytes(bytes@),
    {
        proof {
            use_type_invariant(self);
        }
        let bytes = self.bytes.clone();
        assert(bytes@ =~= self.bytes@);
        bytes
    }

    /// The number that fits in one byte.
    pub fn from_u8(value: u8) -> (number: Self)
        ensures
            number@ == value as nat,
    {
        let mut bytes: Vec<u8> = Vec::new();
        bytes.push(value);
        proof {
            assert(bytes@.drop_last() =~= Seq::<u8>::empty());
            assert(be_value(bytes@.drop_last()) == 0);
        }
        Magnitude { bytes }
    }

    /// Two to the power of `exponent`.
    pub fn power_of_two(exponent: usize) -> (number: Self)
        ensures
            number@ == pow2(exponent as nat),
    {
        Magnitude { bytes: big_power_of_two(exponent) }
    }

    /// The sum of this number and `other`.
    pub fn plus(&self, other: &Magnitude) -> (number: Self)
        ensures
            number@ == self@ + other@,
    {
        Magnitude { bytes: big_sum(self.bytes.as_slice(), other.bytes.as_slice()) }
    }

    /// What is left of this number when `other`, which is not larger, is
    /// taken from it.
    pub fn minus(&self, other: &Magnitude) -> (number: Self)
        requires
            self@ >= other@,
        ensures
            number@ == self@ - other@,
    {
        Magnitude { bytes: big_difference(self.bytes.as_slice(), other.bytes.as_slice()) }
    }

    /// Whether this number is at most `other`.
    pub fn at_most(&self, other: &Magnitude) -> (holds: bool)
        ensures
            holds == (self@ <= other@),
    {
        big_at_most(self.bytes.as_slice(), other.bytes.as_slice())
    }

    /// The fewest bits that can express this number: zero for zero.
    pub fn bits(&self) -> (count: u64)
        ensures
            count == bit_length(self@),
    {
        big_bit_count(self.bytes.as_slice())
    }
}

} // verus!
