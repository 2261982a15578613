//! The configuration of the codec and the widths that it can express.
//!
//! A configuration is a jumpstarter width between one and eight bits and a
//! number of tiers, at least one. The jumpstarter names the topmost width;
//! every tier below it can name widths that are exponentially larger.

use vstd::prelude::*;
use vstd::arithmetic::power2::{
    lemma2_to64, lemma_pow2_strictly_increases, lemma_pow2_unfold, pow2,
};
use crate::bucket::{lemma_bucket_width_le, lemma_one_shl, lemma_pow2_high, payload_width};

verus! {

/// Jumpstarter of two bits, one tier.
pub const LOTUS_J2D1: (usize, usize) = (2, 1);

/// Jumpstarter of one bit, two tiers.
pub const LOTUS_J1D2: (usize, usize) = (1, 2);

/// Jumpstarter of three bits, one tier.
pub const LOTUS_J3D1: (usize, usize) = (3, 1);

/// Whether a jumpstarter width and a number of tiers form a configuration.
pub open spec fn valid_config(j_bits: nat, tiers: nat) -> bool {
    1 <= j_bits <= 8 && tiers >= 1
}

/// The largest payload width that a configuration can express: the
/// jumpstarter alone names widths up to `2^j_bits`, and each tier turns a
/// bound `b` into `2^(b+1) - 4`.
pub open spec fn width_bound(j_bits: nat, tiers: nat) -> nat
    decreases tiers,
{
    if tiers == 0 {
        pow2(j_bits)
    } else {
        (pow2(width_bound(j_bits, (tiers - 1) as nat) + 1) - 4) as nat
    }
}

/// The largest bound that `max_width_for_config` reports as it is. Any
/// larger bound is reported as `u128::MAX`.
pub open spec fn largest_exact_bound() -> nat {
    (pow2(127) - 4) as nat
}

/// The topmost width of a tier chain: the width of the width of the width,
/// `tiers` times over, of a field that is `width` bits wide.
pub open spec fn top_width(width: nat, tiers: nat) -> nat
    decreases tiers,
{
    if tiers == 0 {
        width
    } else {
        top_width(payload_width(width), (tiers - 1) as nat)
    }
}

/// Every power of two is larger than its exponent.
pub proof fn lemma_pow2_exceeds(exp: nat)
    ensures
        pow2(exp) > exp,
    decreases exp,
{
    lemma2_to64();
    if exp > 0 {
        lemma_pow2_exceeds((exp - 1) as nat);
        lemma_pow2_unfold(exp);
    }
}

/// With a jumpstarter of at least one bit the bound is at least two, it is
/// the exact value of the formula, and more tiers never lower it.
pub proof fn lemma_width_bound_grows(j_bits: nat, tiers: nat)
    requires
        j_bits >= 1,
    ensures
        width_bound(j_bits, tiers) >= 2,
        width_bound(j_bits, tiers) >= pow2(j_bits),
        width_bound(j_bits, tiers + 1) == pow2(width_bound(j_bits, tiers) + 1) - 4,
        width_bound(j_bits, tiers + 1) >= width_bound(j_bits, tiers),
    decreases tiers,
{
    lemma2_to64();
    if tiers == 0 {
        lemma_pow2_strictly_increases(0, j_bits);
    } else {
        lemma_width_bound_grows(j_bits, (tiers - 1) as nat);
    }
    let bound = width_bound(j_bits, tiers);
    lemma_pow2_exceeds(bound);
    lemma_pow2_unfold(bound + 1);
}

/// More tiers never lower the bound.
pub proof fn lemma_width_bound_monotonic(j_bits: nat, fewer: nat, more: nat)
    requires
        j_bits >= 1,
        fewer <= more,
    ensures
        width_bound(j_bits, fewer) <= width_bound(j_bits, more),
    decreases more - fewer,
{
    if fewer < more {
        lemma_width_bound_grows(j_bits, fewer);
        lemma_width_bound_monotonic(j_bits, fewer + 1, more);
    }
}

/// The topmost width of a chain fits the jumpstarter exactly when the width
/// at the bottom of the chain is within the configuration's bound.
pub proof fn lemma_top_width_fits(width: nat, j_bits: nat, tiers: nat)
    requires
        j_bits >= 1,
    ensures
        top_width(width, tiers) <= pow2(j_bits) <==> width <= width_bound(j_bits, tiers),
    decreases tiers,
{
    if tiers > 0 {
        let below = (tiers - 1) as nat;
        lemma_top_width_fits(payload_width(width), j_bits, below);
        lemma_width_bound_grows(j_bits, below);
        lemma_bucket_width_le(width + 1, width_bound(j_bits, below));
    }
}

/// The largest payload width that the configuration can express, or
/// `u128::MAX` where that width is beyond `2^127 - 4`.
pub fn max_width_for_config(j_bits: usize, tiers: usize) -> (bound: u128)
    requires
        1 <= j_bits <= 8,
    ensures
        width_bound(j_bits as nat, tiers as nat) <= largest_exact_bound() ==> bound == width_bound(
            j_bits as nat,
            tiers as nat,
        ),
        width_bound(j_bits as nat, tiers as nat) > largest_exact_bound() ==> bound == u128::MAX,
{
    proof {
        lemma2_to64();
        lemma_pow2_high();
        lemma_one_shl(j_bits as u32);
        lemma_pow2_strictly_increases(j_bits as nat, 9);
        lemma_pow2_strictly_increases(9, 127);
    }
    let mut max_width: u128 = 1u128 << (j_bits as u32);
    let mut done: usize = 0;
    while done < tiers
        invariant
            1 <= j_bits <= 8,
            done <= tiers,
            max_width == width_bound(j_bits as nat, done as nat),
            max_width <= largest_exact_bound(),
        decreases tiers - done,
    {
        proof {
            lemma_width_bound_grows(j_bits as nat, done as nat);
            lemma_pow2_high();
        }
        if max_width >= 127 {
            proof {
                lemma_pow2_strictly_increases(127, (max_width + 1) as nat);
                lemma_width_bound_monotonic(j_bits as nat, (done + 1) as nat, tiers as nat);
            }
            return u128::MAX;
        }
        let shift: u32 = (max_width + 1) as u32;
        proof {
            lemma_one_shl(shift);
            if shift < 127 {
                lemma_pow2_strictly_increases(shift as nat, 127);
            }
        }
        max_width = (1u128 << shift) - 4;
        done = done + 1;
    }
    max_width
}

} // verus!
