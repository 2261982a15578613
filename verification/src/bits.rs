//! Bit sequences, and the numbers and bytes that they spell.
//!
//! Every run of bits in this crate is read most significant bit first. A
//! sequence of booleans is the model of everything that the writer has
//! written and of everything that the reader can read.

use vstd::prelude::*;
use vstd::arithmetic::div_mod::{
    lemma_div_denominator, lemma_fundamental_div_mod_converse, lemma_mod_breakdown,
    lemma_small_mod,
};
use vstd::arithmetic::power2::{lemma2_to64, lemma_pow2_pos, lemma_pow2_unfold, pow2};

verus! {

/// The low `width` bits of `value`, most significant first.
pub open spec fn bits_of(value: nat, width: nat) -> Seq<bool>
    decreases width,
{
    if width == 0 {
        Seq::empty()
    } else {
        bits_of(value / 2, (width - 1) as nat).push(value % 2 == 1)
    }
}

/// The number that a run of bits spells, most significant bit first.
pub open spec fn bits_value(bits: Seq<bool>) -> nat
    decreases bits.len(),
{
    if bits.len() == 0 {
        0
    } else {
        2 * bits_value(bits.drop_last()) + if bits.last() {
            1nat
        } else {
            0nat
        }
    }
}

/// The bits of a byte sequence: eight per byte, in order.
pub open spec fn bytes_bits(bytes: Seq<u8>) -> Seq<bool>
    decreases bytes.len(),
{
    if bytes.len() == 0 {
        Seq::empty()
    } else {
        bytes_bits(bytes.drop_last()) + bits_of(bytes.last() as nat, 8)
    }
}

/// The number spelled by the `width` bits that start at `from`.
pub open spec fn field_value(bits: Seq<bool>, from: nat, width: nat) -> nat {
    bits_value(bits.subrange(from as int, (from + width) as int))
}

/// A run of `n` zero bits.
pub open spec fn zero_bits(n: nat) -> Seq<bool> {
    Seq::new(n, |i: int| false)
}

/// How many zero bits fill a run of `n` bits up to a whole number of bytes.
pub open spec fn padding(n: nat) -> nat {
    ((8 - n % 8) % 8) as nat
}

/// The bits followed by the zero bits that complete the last byte.
pub open spec fn padded(bits: Seq<bool>) -> Seq<bool> {
    bits + zero_bits(padding(bits.len()))
}

/// The bytes spelled by a run of bits whose length is a multiple of eight.
pub open spec fn grouped(bits: Seq<bool>) -> Seq<u8> {
    Seq::new(bits.len() / 8, |i: int| bits_value(bits.subrange(8 * i, 8 * i + 8)) as u8)
}

/// The bytes that hold a run of bits: the bits fill each byte from its high
/// end, and the unused low bits of the last byte are zero.
pub open spec fn packed(bits: Seq<bool>) -> Seq<u8> {
    grouped(padded(bits))
}

/// A run of `width` bits has `width` bits.
pub proof fn lemma_bits_of_len(value: nat, width: nat)
    ensures
        bits_of(value, width).len() == width,
    decreases width,
{
    if width > 0 {
        lemma_bits_of_len(value / 2, (width - 1) as nat);
    }
}

/// A run of `high + low` bits is the run of the `high` bits above the low
/// `low` ones, followed by those.
pub proof fn lemma_bits_of_split(value: nat, high: nat, low: nat)
    ensures
        bits_of(value, high + low) == bits_of(value / pow2(low), high) + bits_of(value, low),
    decreases low,
{
    lemma2_to64();
    if low == 0 {
        assert(bits_of(value, 0) =~= Seq::<bool>::empty());
        assert(bits_of(value / pow2(low), high) + bits_of(value, low) =~= bits_of(value, high));
    } else {
        let rest = (low - 1) as nat;
        lemma_bits_of_split(value / 2, high, rest);
        lemma_pow2_unfold(low);
        lemma_pow2_pos(rest);
        lemma_div_denominator(value as int, 2, pow2(rest) as int);
        assert(value / 2 / pow2(rest) == value / pow2(low));
        assert(bits_of(value, high + low) == bits_of(value / 2, high + rest).push(value % 2 == 1));
        assert(bits_of(value, low) == bits_of(value / 2, rest).push(value % 2 == 1));
        assert((bits_of(value / pow2(low), high) + bits_of(value / 2, rest)).push(value % 2 == 1)
            =~= bits_of(value / pow2(low), high) + bits_of(value / 2, rest).push(value % 2 == 1));
    }
}

/// Bits set above a run that fits its width come out in front of it.
pub proof fn lemma_bits_of_join(high: nat, high_width: nat, low: nat, low_width: nat)
    requires
        low < pow2(low_width),
    ensures
        bits_of(high * pow2(low_width) + low, high_width + low_width) == bits_of(high, high_width)
            + bits_of(low, low_width),
{
    let scale = pow2(low_width);
    let whole = high * scale + low;
    lemma_bits_of_split(whole, high_width, low_width);
    lemma_fundamental_div_mod_converse(whole as int, scale as int, high as int, low as int);
    lemma_bits_of_mod(whole, low_width);
}

/// The first `take` bits of a run of `width` bits, and the rest of the run.
pub proof fn lemma_bits_of_front(value: nat, width: nat, take: nat)
    requires
        take <= width,
    ensures
        bits_of(value, width) == bits_of(
            (value / pow2((width - take) as nat)) % pow2(take),
            take,
        ) + bits_of(value, (width - take) as nat),
{
    let rest = (width - take) as nat;
    lemma_bits_of_split(value, take, rest);
    lemma_bits_of_mod(value / pow2(rest), take);
}

/// Only the low `width` bits of a value show in its run of `width` bits.
pub proof fn lemma_bits_of_mod(value: nat, width: nat)
    ensures
        bits_of(value, width) == bits_of(value % pow2(width), width),
    decreases width,
{
    lemma_pow2_pos(width);
    if width > 0 {
        let rest = (width - 1) as nat;
        let half = pow2(rest);
        lemma_pow2_unfold(width);
        lemma_pow2_pos(rest);
        lemma_mod_breakdown(value as int, 2, half as int);
        let low = value % pow2(width);
        assert(low == 2 * ((value / 2) % half) + value % 2);
        assert(low / 2 == (value / 2) % half);
        assert(low % 2 == value % 2);
        lemma_bits_of_mod(value / 2, rest);
        assert(bits_of(value / 2, rest) == bits_of(low / 2, rest));
        assert(bits_of(value, width) == bits_of(value / 2, rest).push(value % 2 == 1));
        assert(bits_of(low, width) == bits_of(low / 2, rest).push(low % 2 == 1));
    }
}

/// A run of bits spells a number below two to the power of its length.
pub proof fn lemma_bits_value_bound(bits: Seq<bool>)
    ensures
        bits_value(bits) < pow2(bits.len()),
    decreases bits.len(),
{
    lemma2_to64();
    if bits.len() > 0 {
        lemma_bits_value_bound(bits.drop_last());
        lemma_pow2_unfold(bits.len());
    }
}

/// The run of `width` bits of a value spells the value modulo `2^width`.
pub proof fn lemma_bits_value_of(value: nat, width: nat)
    ensures
        bits_value(bits_of(value, width)) == value % pow2(width),
    decreases width,
{
    lemma2_to64();
    if width > 0 {
        let rest = (width - 1) as nat;
        lemma_bits_value_of(value / 2, rest);
        lemma_pow2_unfold(width);
        lemma_pow2_pos(rest);
        lemma_mod_breakdown(value as int, 2, pow2(rest) as int);
        let run = bits_of(value, width);
        assert(run.drop_last() =~= bits_of(value / 2, rest));
        assert(run.last() == (value % 2 == 1));
    } else {
        assert(value % 1 == 0);
    }
}

/// A value that fits in `width` bits is spelled by its run of `width` bits.
pub proof fn lemma_bits_value_fits(value: nat, width: nat)
    requires
        value < pow2(width),
    ensures
        bits_value(bits_of(value, width)) == value,
{
    lemma_bits_value_of(value, width);
    lemma_small_mod(value, pow2(width));
}

/// A run of bits is the run of the number it spells.
pub proof fn lemma_bits_of_value(bits: Seq<bool>)
    ensures
        bits_of(bits_value(bits), bits.len()) == bits,
    decreases bits.len(),
{
    if bits.len() > 0 {
        let front = bits.drop_last();
        lemma_bits_of_value(front);
        let value = bits_value(bits);
        assert(value / 2 == bits_value(front));
        assert((value % 2 == 1) == bits.last());
        assert(bits_of(value, bits.len()) =~= bits);
    } else {
        assert(bits_of(bits_value(bits), bits.len()) =~= bits);
    }
}

/// The number spelled by two runs, one after the other.
pub proof fn lemma_bits_value_concat(front: Seq<bool>, back: Seq<bool>)
    ensures
        bits_value(front + back) == bits_value(front) * pow2(back.len()) + bits_value(back),
    decreases back.len(),
{
    lemma2_to64();
    if back.len() == 0 {
        assert(front + back =~= front);
    } else {
        let whole = front + back;
        assert(whole.drop_last() =~= front + back.drop_last());
        assert(whole.last() == back.last());
        lemma_bits_value_concat(front, back.drop_last());
        lemma_pow2_unfold(back.len());
        let scale = pow2((back.len() - 1) as nat);
        assert(2 * (bits_value(front) * scale) == bits_value(front) * (2 * scale))
            by (nonlinear_arith);
    }
}

/// A run of zero bits spells zero.
pub proof fn lemma_zero_bits_value(n: nat)
    ensures
        bits_value(zero_bits(n)) == 0,
        zero_bits(n) == bits_of(0, n),
    decreases n,
{
    if n > 0 {
        let rest = (n - 1) as nat;
        lemma_zero_bits_value(rest);
        assert(zero_bits(n).drop_last() =~= zero_bits(rest));
        assert(zero_bits(n) =~= bits_of(0, rest).push(false));
    } else {
        assert(zero_bits(n) =~= bits_of(0, n));
    }
}

/// Bytes have eight bits each.
pub proof fn lemma_bytes_bits_len(bytes: Seq<u8>)
    ensures
        bytes_bits(bytes).len() == 8 * bytes.len(),
    decreases bytes.len(),
{
    if bytes.len() > 0 {
        lemma_bytes_bits_len(bytes.drop_last());
        lemma_bits_of_len(bytes.last() as nat, 8);
    }
}

/// One more byte adds its eight bits.
pub proof fn lemma_bytes_bits_push(bytes: Seq<u8>, byte: u8)
    ensures
        bytes_bits(bytes.push(byte)) == bytes_bits(bytes) + bits_of(byte as nat, 8),
{
    assert(bytes.push(byte).drop_last() =~= bytes);
}

/// The bits of two byte sequences, one after the other.
pub proof fn lemma_bytes_bits_concat(front: Seq<u8>, back: Seq<u8>)
    ensures
        bytes_bits(front + back) == bytes_bits(front) + bytes_bits(back),
    decreases back.len(),
{
    if back.len() == 0 {
        assert(front + back =~= front);
        assert(bytes_bits(front) + bytes_bits(back) =~= bytes_bits(front));
    } else {
        let whole = front + back;
        assert(whole.drop_last() =~= front + back.drop_last());
        assert(whole.last() == back.last());
        lemma_bytes_bits_concat(front, back.drop_last());
        assert(bytes_bits(whole) =~= bytes_bits(front) + bytes_bits(back));
    }
}

/// The eight bits at a byte's place are the bits of that byte.
pub proof fn lemma_bytes_bits_chunk(bytes: Seq<u8>, i: int)
    requires
        0 <= i < bytes.len(),
    ensures
        bytes_bits(bytes).len() == 8 * bytes.len(),
        bytes_bits(bytes).subrange(8 * i, 8 * i + 8) == bits_of(bytes[i] as nat, 8),
    decreases bytes.len(),
{
    lemma_bytes_bits_len(bytes);
    let front = bytes.drop_last();
    lemma_bytes_bits_len(front);
    lemma_bits_of_len(bytes.last() as nat, 8);
    if i == bytes.len() - 1 {
        assert(bytes_bits(bytes).subrange(8 * i, 8 * i + 8) =~= bits_of(bytes[i] as nat, 8));
    } else {
        lemma_bytes_bits_chunk(front, i);
        assert(bytes_bits(bytes).subrange(8 * i, 8 * i + 8) =~= bytes_bits(front).subrange(
            8 * i,
            8 * i + 8,
        ));
    }
}

/// The bits that start `left` bits before the end of a byte: the first
/// `take` of them are the bits of the byte above its low `left - take` bits.
pub proof fn lemma_bytes_bits_window(bytes: Seq<u8>, next: int, left: nat, take: nat)
    requires
        1 <= next <= bytes.len(),
        take <= left <= 8,
    ensures
        bytes_bits(bytes).len() == 8 * bytes.len(),
        bytes_bits(bytes).subrange(8 * next - left, 8 * next - left + take) == bits_of(
            (bytes[next - 1] as nat / pow2((left - take) as nat)) % pow2(take),
            take,
        ),
{
    let byte = bytes[next - 1] as nat;
    let chunk = bits_of(byte, 8);
    let part = bits_of((byte / pow2((left - take) as nat)) % pow2(take), take);
    lemma_bytes_bits_chunk(bytes, next - 1);
    lemma_bits_of_split(byte, (8 - left) as nat, left);
    lemma_bits_of_front(byte, left, take);
    lemma_bits_of_len(byte / pow2(left), (8 - left) as nat);
    lemma_bits_of_len(byte, left);
    lemma_bits_of_len(byte, (left - take) as nat);
    lemma_bits_of_len((byte / pow2((left - take) as nat)) % pow2(take), take);
    assert(chunk.subrange(8 - left, 8 - left + take) =~= part);
    assert(bytes_bits(bytes).subrange(8 * next - left, 8 * next - left + take)
        =~= bytes_bits(bytes).subrange(8 * (next - 1), 8 * (next - 1) + 8).subrange(
        8 - left,
        8 - left + take,
    ));
}

/// Grouping a run of whole bytes into bytes loses nothing.
pub proof fn lemma_grouped_bits(bits: Seq<bool>)
    requires
        bits.len() % 8 == 0,
    ensures
        bytes_bits(grouped(bits)) == bits,
    decreases bits.len(),
{
    let bytes = grouped(bits);
    if bits.len() == 0 {
        assert(bytes_bits(bytes) =~= bits);
    } else {
        let n = bits.len() as int;
        let front = bits.subrange(0, n - 8);
        let tail = bits.subrange(n - 8, n);
        lemma_grouped_bits(front);
        assert(bytes.drop_last() =~= grouped(front)) by {
            assert forall|i: int| 0 <= i < bytes.len() - 1 implies bytes[i] == grouped(
                front,
            )[i] by {
                assert(bits.subrange(8 * i, 8 * i + 8) =~= front.subrange(8 * i, 8 * i + 8));
            }
        }
        assert(bits.subrange(8 * (bytes.len() - 1), 8 * (bytes.len() - 1) + 8) =~= tail);
        lemma_bits_value_bound(tail);
        lemma2_to64();
        assert(bytes.last() as nat == bits_value(tail));
        lemma_bits_of_value(tail);
        assert(bytes_bits(bytes) =~= bits);
    }
}

/// The bytes that hold a run of bits spell the run and its zero padding.
pub proof fn lemma_packed_bits(bits: Seq<bool>)
    ensures
        bytes_bits(packed(bits)) == padded(bits),
        packed(bits).len() == (bits.len() + 7) / 8,
{
    lemma_grouped_bits(padded(bits));
}

/// No other bytes spell a run of bits and its zero padding.
pub proof fn lemma_packed_unique(bytes: Seq<u8>, bits: Seq<bool>)
    requires
        bytes_bits(bytes) == padded(bits),
    ensures
        bytes == packed(bits),
{
    lemma_bytes_bits_len(bytes);
    lemma2_to64();
    assert forall|i: int| 0 <= i < bytes.len() implies bytes[i] == packed(bits)[i] by {
        lemma_bytes_bits_chunk(bytes, i);
        lemma_bits_value_fits(bytes[i] as nat, 8);
    }
    assert(bytes =~= packed(bits));
}

} // verus!
