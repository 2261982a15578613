//! The bit writer: runs of bits, most significant first, gathered into bytes.

use vstd::prelude::*;
use vstd::arithmetic::div_mod::{lemma_basic_div, lemma_small_mod};
use vstd::arithmetic::power2::{
    lemma2_to64, lemma2_to64_rest, lemma_pow2_adds, lemma_pow2_pos,
    lemma_pow2_strictly_increases, pow2,
};
use vstd::bits::{
    lemma_u64_low_bits_mask_is_mod, lemma_u64_shl_is_mul, lemma_u64_shr_is_div, low_bits_mask,
};
use crate::bits::{
    bits_of, bytes_bits, lemma_bits_of_front, lemma_bits_of_join, lemma_bits_of_len,
    lemma_bytes_bits_len, lemma_bytes_bits_push, lemma_packed_unique, lemma_zero_bits_value,
    packed, padded, padding,
};
use crate::error::LotusError;

verus! {

/// Appends runs of bits to a byte buffer that it owns.
///
/// Whole bytes go to the buffer as soon as they are complete; up to seven
/// bits wait in `pending` for the next write.
#[derive(Debug)]
pub struct BitWriter {
    buffer: Vec<u8>,
    pending: u8,
    pending_bits: u8,
}

impl View for BitWriter {
    type V = Seq<bool>;

    /// The bits written so far, in the order in which they were written.
    closed spec fn view(&self) -> Seq<bool> {
        bytes_bits(self.buffer@) + bits_of(self.pending as nat, self.pending_bits as nat)
    }
}

/// A 64-bit value has no bits from the 64th on.
proof fn lemma_high_bits_are_zero(value: u64, shift: nat)
    requires
        shift >= 64,
    ensures
        value as nat / pow2(shift) == 0,
{
    lemma2_to64_rest();
    if shift > 64 {
        lemma_pow2_strictly_increases(64, shift);
    }
    lemma_basic_div(value as int, pow2(shift) as int);
}

impl Clone for BitWriter {
    /// A second writer that has written the same bits.
    fn clone(&self) -> (copy: Self)
        ensures
            copy@ == self@,
    {
        proof {
            use_type_invariant(self);
        }
        let buffer = self.buffer.clone();
        assert(buffer@ =~= self.buffer@);
        BitWriter { buffer, pending: self.pending, pending_bits: self.pending_bits }
    }
}

impl Default for BitWriter {
    /// A writer that has written nothing.
    fn default() -> (writer: Self)
        ensures
            writer@ == Seq::<bool>::empty(),
    {
        BitWriter::new()
    }
}

impl BitWriter {
    #[verifier::type_invariant]
    spec fn well_formed(self) -> bool {
        self.pending_bits < 8 && (self.pending as nat) < pow2(self.pending_bits as nat)
    }

    /// A writer that has written nothing.
    pub fn new() -> (writer: Self)
        ensures
            writer@ == Seq::<bool>::empty(),
    {
        proof {
            lemma2_to64();
        }
        let writer = BitWriter { buffer: Vec::new(), pending: 0, pending_bits: 0 };
        assert(writer@ =~= Seq::<bool>::empty());
        writer
    }

    /// Ends the writing and hands out the bytes. Bits that do not fill the
    /// last byte stand at its high end, above zero bits.
    pub fn into_bytes(self) -> (bytes: Vec<u8>)
        ensures
            bytes@ == packed(self@),
    {
        proof {
            use_type_invariant(&self);
            lemma2_to64();
        }
        let ghost bits = self@;
        let BitWriter { mut buffer, pending, pending_bits } = self;
        proof {
            lemma_bytes_bits_len(buffer@);
            lemma_bits_of_len(pending as nat, pending_bits as nat);
        }
        if pending_bits > 0 {
            let fill: u8 = 8 - pending_bits;
            proof {
                lemma_pow2_adds(pending_bits as nat, fill as nat);
                assert(pending * pow2(fill as nat) < 256) by (nonlinear_arith)
                    requires
                        (pending as nat) < pow2(pending_bits as nat),
                        pow2(pending_bits as nat) * pow2(fill as nat) == 256,
                        pow2(fill as nat) > 0,
                ;
                vstd::bits::lemma_u8_shl_is_mul(pending, fill);
                lemma_bits_of_join(pending as nat, pending_bits as nat, 0, fill as nat);
                lemma_zero_bits_value(fill as nat);
                lemma_bytes_bits_push(buffer@, pending << fill);
            }
            buffer.push(pending << fill);
            proof {
                assert(padding(bits.len()) == fill);
                assert(bytes_bits(buffer@) =~= padded(bits));
                lemma_packed_unique(buffer@, bits);
            }
        } else {
            proof {
                assert(padding(bits.len()) == 0);
                assert(bytes_bits(buffer@) =~= padded(bits));
                lemma_packed_unique(buffer@, bits);
            }
        }
        buffer
    }

    /// Writes the low `width` bits of `value`, most significant first. Where
    /// `width` is above 64, zero bits come in front of the 64 bits of the
    /// value. This never fails.
    pub fn write_bits(&mut self, value: u64, width: usize) -> (result: Result<(), LotusError>)
        ensures
            result is Ok,
            final(self)@ == old(self)@ + bits_of(value as nat, width as nat),
    {
        proof {
            use_type_invariant(&*self);
        }
        let ghost target = self@ + bits_of(value as nat, width as nat);
        let mut buffer: Vec<u8> = Vec::new();
        core::mem::swap(&mut self.buffer, &mut buffer);
        let mut pending: u8 = self.pending;
        let mut pending_bits: u8 = self.pending_bits;
        let mut remaining: usize = width;
        while remaining > 0
            invariant
                remaining <= width,
                pending_bits < 8,
                (pending as nat) < pow2(pending_bits as nat),
                bytes_bits(buffer@) + bits_of(pending as nat, pending_bits as nat) + bits_of(
                    value as nat,
                    remaining as nat,
                ) == target,
            decreases remaining,
        {
            let ghost before = bytes_bits(buffer@) + bits_of(pending as nat, pending_bits as nat);
            let ghost stored = buffer@;
            let ghost held = pending as nat;
            let ghost held_bits = pending_bits as nat;
            let available: u8 = 8 - pending_bits;
            let take: u8 = if remaining < available as usize {
                remaining as u8
            } else {
                available
            };
            let shift: usize = remaining - take as usize;
            proof {
                lemma2_to64();
                lemma_pow2_pos(take as nat);
                lemma_pow2_adds(held_bits, take as nat);
                lemma_pow2_strictly_increases(take as nat, 9);
                lemma_u64_shl_is_mul(1, take as u64);
                if shift < 64 {
                    lemma_u64_shr_is_div(value, shift as u64);
                    lemma_u64_low_bits_mask_is_mod(value >> (shift as u64), take as nat);
                } else {
                    lemma_high_bits_are_zero(value, shift as nat);
                    lemma_small_mod(0, pow2(take as nat));
                }
            }
            let mask: u64 = (1u64 << (take as u64)) - 1;
            assert(mask == low_bits_mask(take as nat) as u64);
            let part: u64 = if shift < 64 {
                (value >> (shift as u64)) & mask
            } else {
                0
            };
            assert(part as nat == (value as nat / pow2(shift as nat)) % pow2(take as nat));
            proof {
                assert(held * pow2(take as nat) + part < pow2(held_bits + take as nat))
                    by (nonlinear_arith)
                    requires
                        held < pow2(held_bits),
                        (part as nat) < pow2(take as nat),
                        pow2(held_bits + take as nat) == pow2(held_bits) * pow2(take as nat),
                ;
                lemma_pow2_strictly_increases(held_bits + take as nat, 9);
                lemma_u64_shl_is_mul(pending as u64, take as u64);
            }
            let high: u64 = (pending as u64) << (take as u64);
            assert(high | part == high + part) by (bit_vector)
                requires
                    high == (pending as u64) << (take as u64),
                    part < (1u64 << (take as u64)),
                    take <= 8,
            ;
            let combined: u64 = high | part;
            proof {
                lemma_bits_of_join(held, held_bits, part as nat, take as nat);
                lemma_bits_of_front(value as nat, remaining as nat, take as nat);
            }
            if pending_bits + take == 8 {
                buffer.push(combined as u8);
                pending = 0;
                pending_bits = 0;
                proof {
                    lemma_bytes_bits_push(stored, combined as u8);
                }
            } else {
                pending = combined as u8;
                pending_bits = pending_bits + take;
            }
            proof {
                assert(bytes_bits(buffer@) + bits_of(pending as nat, pending_bits as nat)
                    =~= before + bits_of(part as nat, take as nat));
                assert(bytes_bits(buffer@) + bits_of(pending as nat, pending_bits as nat)
                    + bits_of(value as nat, shift as nat) =~= before + bits_of(
                    value as nat,
                    remaining as nat,
                ));
            }
            remaining = shift;
        }
        core::mem::swap(&mut self.buffer, &mut buffer);
        self.pending = 0;
        self.pending_bits = pending_bits;
        self.pending = pending;
        proof {
            lemma2_to64();
            assert(self@ + bits_of(value as nat, 0) =~= self@);
        }
        Ok(())
    }
}

} // verus!
