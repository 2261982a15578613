//! The bit reader: runs of bits, most significant first, taken from bytes.

use vstd::prelude::*;
use vstd::arithmetic::div_mod::{
    lemma_add_mod_noop, lemma_fundamental_div_mod_converse, lemma_mod_breakdown, lemma_mod_mod,
    lemma_mul_mod_noop_left, lemma_small_mod,
};
use vstd::arithmetic::power2::{
    lemma2_to64, lemma2_to64_rest, lemma_pow2_adds, lemma_pow2_pos, lemma_pow2_strictly_increases,
    pow2,
};
use vstd::bits::{lemma_u64_low_bits_mask_is_mod, lemma_u64_shl_is_mul, lemma_u64_shr_is_div};
use crate::bits::{
    bits_value, bytes_bits, field_value, lemma_bits_value_bound, lemma_bits_value_concat,
    lemma_bits_value_fits, lemma_bytes_bits_len, lemma_bytes_bits_window,
};
use crate::error::LotusError;

verus! {

/// Takes runs of bits from a byte slice that it borrows.
///
/// `byte_pos` counts the bytes taken from the slice; the low `pending_bits`
/// bits of the last one taken wait in `pending` for the next read.
#[derive(Debug)]
pub struct BitReader<'a> {
    bytes: &'a [u8],
    byte_pos: usize,
    pending: u8,
    pending_bits: u8,
}

/// One step of gathering a number from its bits: the number so far moves up
/// by `take` bits and the new bits come in below it, all modulo `2^64`.
proof fn lemma_accumulate(seen: nat, value: u64, take: u64, part: u64)
    requires
        value as nat == seen % pow2(64),
        take <= 8,
        (part as nat) < pow2(take as nat),
    ensures
        ((value << take) | part) as nat == (seen * pow2(take as nat) + part as nat) % pow2(64),
{
    lemma2_to64();
    lemma2_to64_rest();
    lemma_u64_shl_is_mul(1, take);
    let scale: u64 = 1u64 << take;
    let modulus: int = 0x1_0000_0000_0000_0000;
    assert(((value << take) | part) as int == (value * scale + part) % 0x1_0000_0000_0000_0000)
        by (bit_vector)
        requires
            scale == 1u64 << take,
            take <= 8,
            part < scale,
    ;
    lemma_mul_mod_noop_left(seen as int, scale as int, modulus);
    lemma_add_mod_noop(seen * scale, part as int, modulus);
    lemma_add_mod_noop(value * scale, part as int, modulus);
}

/// Taking the top `take` of the `left` bits that wait in `pending`: what the
/// shifts and masks give, in terms of the byte that the bits came from.
proof fn lemma_take_from_pending(byte: u8, pending: u8, left: u8, take: u8)
    requires
        take <= left <= 8,
        pending as nat == byte as nat % pow2(left as nat),
    ensures
        (((pending as u64) >> ((left - take) as u64)) & (((1u64 << (take as u64)) - 1) as u64))
            as nat == (byte as nat / pow2((left - take) as nat)) % pow2(take as nat),
        ((pending as u64) & (((1u64 << ((left - take) as u64)) - 1) as u64)) as nat == byte as nat
            % pow2((left - take) as nat),
        (byte as nat / pow2((left - take) as nat)) % pow2(take as nat) < pow2(take as nat),
        byte as nat % pow2((left - take) as nat) < pow2((left - take) as nat),
        (1u64 << (take as u64)) as nat == pow2(take as nat),
        (1u64 << ((left - take) as u64)) as nat == pow2((left - take) as nat),
        0 < pow2((left - take) as nat) <= 256,
        0 < pow2(take as nat) <= 256,
{
    let shift = (left - take) as u8;
    let low = pow2(shift as nat);
    let high = pow2(take as nat);
    lemma2_to64();
    lemma_pow2_pos(take as nat);
    lemma_pow2_pos(shift as nat);
    lemma_pow2_adds(shift as nat, take as nat);
    lemma_pow2_strictly_increases(take as nat, 9);
    lemma_pow2_strictly_increases(shift as nat, 9);
    lemma_u64_shl_is_mul(1, take as u64);
    lemma_u64_shl_is_mul(1, shift as u64);
    lemma_u64_shr_is_div(pending as u64, shift as u64);
    lemma_u64_low_bits_mask_is_mod((pending as u64) >> (shift as u64), take as nat);
    lemma_u64_low_bits_mask_is_mod(pending as u64, shift as nat);
    lemma_mod_breakdown(byte as int, low as int, high as int);
    lemma_mod_mod(byte as int, low as int, high as int);
    let top = (byte as nat / low) % high;
    let rest = byte as nat % low;
    vstd::arithmetic::mul::lemma_mul_is_commutative(low as int, top as int);
    lemma_fundamental_div_mod_converse(pending as int, low as int, top as int, rest as int);
    assert(pending as nat / low == top);
    assert(pending as nat % low == rest);
    lemma_small_mod(top, high);
}

impl<'a> Clone for BitReader<'a> {
    /// A second reader at the same place of the same input.
    fn clone(&self) -> (copy: Self)
        ensures
            copy.input() == self.input(),
            copy.position() == self.position(),
    {
        proof {
            use_type_invariant(self);
        }
        BitReader {
            bytes: self.bytes,
            byte_pos: self.byte_pos,
            pending: self.pending,
            pending_bits: self.pending_bits,
        }
    }
}

impl<'a> BitReader<'a> {
    #[verifier::type_invariant]
    spec fn well_formed(self) -> bool {
        &&& 8 * self.bytes@.len() <= usize::MAX
        &&& self.byte_pos <= self.bytes@.len()
        &&& self.pending_bits < 8
        &&& self.pending_bits > 0 ==> {
            &&& self.byte_pos >= 1
            &&& self.pending as nat == self.bytes@[self.byte_pos - 1] as nat % pow2(
                self.pending_bits as nat,
            )
        }
    }

    /// The bytes that are read.
    pub closed spec fn input(&self) -> Seq<u8> {
        self.bytes@
    }

    /// How many bits of the input have been consumed.
    pub closed spec fn position(&self) -> nat {
        (8 * self.byte_pos - self.pending_bits) as nat
    }

    /// The bits of the input, consumed or not.
    pub open spec fn bits(&self) -> Seq<bool> {
        bytes_bits(self.input())
    }

    /// A reader at the start of `bytes`.
    pub fn new(bytes: &'a [u8]) -> (reader: Self)
        requires
            8 * bytes@.len() <= usize::MAX,
        ensures
            reader.input() == bytes@,
            reader.position() == 0,
    {
        BitReader { bytes, byte_pos: 0, pending: 0, pending_bits: 0 }
    }

    /// Reads the next `width` bits as a number, most significant bit first.
    ///
    /// Of a run longer than 64 bits the low 64 bits are returned. When the
    /// input ends before the run does, the read fails and the rest of the
    /// input stays consumed.
    pub fn read_bits(&mut self, width: usize) -> (result: Result<u64, LotusError>)
        ensures
            final(self).input() == old(self).input(),
            old(self).bits().len() == 8 * old(self).input().len(),
            old(self).position() <= old(self).bits().len(),
            match result {
                Ok(value) => {
                    &&& old(self).position() + width <= old(self).bits().len()
                    &&& final(self).position() == old(self).position() + width
                    &&& value as nat == field_value(
                        old(self).bits(),
                        old(self).position(),
                        width as nat,
                    ) % pow2(64)
                    &&& width <= 64 ==> value as nat == field_value(
                        old(self).bits(),
                        old(self).position(),
                        width as nat,
                    )
                },
                Err(error) => {
                    &&& error == LotusError::UnexpectedEof
                    &&& old(self).position() + width > old(self).bits().len()
                    &&& final(self).position() == old(self).bits().len()
                },
            },
    {
        proof {
            use_type_invariant(&*self);
            lemma_bytes_bits_len(self.bytes@);
            lemma2_to64();
            lemma2_to64_rest();
        }
        let bytes: &[u8] = self.bytes;
        let ghost bits = bytes_bits(bytes@);
        let ghost start = self.position();
        let mut byte_pos: usize = self.byte_pos;
        let mut pending: u8 = self.pending;
        let mut pending_bits: u8 = self.pending_bits;
        let mut value: u64 = 0;
        let mut remaining: usize = width;
        proof {
            assert(bits.subrange(start as int, start as int) =~= Seq::<bool>::empty());
        }
        while remaining > 0
            invariant
                bytes@ == old(self).input(),
                start == old(self).position(),
                bits == bytes_bits(bytes@),
                bits.len() == 8 * bytes@.len(),
                8 * bytes@.len() <= usize::MAX,
                byte_pos <= bytes@.len(),
                pending_bits < 8,
                pending_bits > 0 ==> byte_pos >= 1 && pending as nat == bytes@[byte_pos - 1] as nat
                    % pow2(pending_bits as nat),
                remaining <= width,
                8 * byte_pos - pending_bits == start + (width - remaining),
                value as nat == field_value(bits, start, (width - remaining) as nat) % pow2(64),
                self.bytes == bytes,
                self.pending_bits < 8,
                self.byte_pos <= bytes@.len(),
                self.pending_bits > 0 ==> self.byte_pos >= 1 && self.pending as nat
                    == bytes@[self.byte_pos - 1] as nat % pow2(self.pending_bits as nat),
            decreases remaining,
        {
            if pending_bits == 0 {
                if byte_pos >= bytes.len() {
                    self.pending_bits = 0;
                    self.byte_pos = byte_pos;
                    return Err(LotusError::UnexpectedEof);
                }
                pending = bytes[byte_pos];
                byte_pos = byte_pos + 1;
                pending_bits = 8;
                proof {
                    lemma2_to64();
                    lemma_small_mod(pending as nat, 256);
                }
            }
            let ghost byte = bytes@[byte_pos - 1] as nat;
            let ghost done = (width - remaining) as nat;
            let ghost here = (8 * byte_pos - pending_bits) as nat;
            let take: u8 = if remaining < pending_bits as usize {
                remaining as u8
            } else {
                pending_bits
            };
            let shift: u8 = pending_bits - take;
            proof {
                lemma_take_from_pending(bytes@[byte_pos - 1], pending, pending_bits, take);
            }
            let part: u64 = ((pending as u64) >> (shift as u64)) & ((1u64 << (take as u64)) - 1);
            let kept: u64 = (pending as u64) & ((1u64 << (shift as u64)) - 1);
            proof {
                lemma_bytes_bits_window(bytes@, byte_pos as int, pending_bits as nat, take as nat);
                lemma_bits_value_fits(part as nat, take as nat);
                let seen = bits.subrange(start as int, here as int);
                let next = bits.subrange(here as int, here + take);
                assert(bits.subrange(start as int, here + take) =~= seen + next);
                lemma_bits_value_concat(seen, next);
                lemma_accumulate(bits_value(seen), value, take as u64, part);
            }
            value = (value << (take as u64)) | part;
            pending = kept as u8;
            pending_bits = shift;
            remaining = remaining - take as usize;
        }
        self.pending_bits = 0;
        self.byte_pos = byte_pos;
        self.pending = pending;
        self.pending_bits = pending_bits;
        proof {
            lemma_bits_value_bound(bits.subrange(start as int, start + width));
            if width <= 64 {
                lemma_pow2_strictly_increases(width as nat, 65);
                lemma_small_mod(field_value(bits, start, width as nat), pow2(64));
            }
        }
        Ok(value)
    }

    /// How many bits have been consumed since the reader was made.
    pub fn bits_consumed(&self) -> (count: usize)
        ensures
            count == self.position(),
            count <= 8 * self.input().len(),
    {
        proof {
            use_type_invariant(self);
        }
        self.byte_pos * 8 - self.pending_bits as usize
    }
}

} // verus!
