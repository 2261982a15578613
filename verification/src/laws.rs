//! What holds of encoding and decoding together.

use vstd::prelude::*;
use vstd::arithmetic::power2::{
    lemma2_to64, lemma_pow2_strictly_increases, lemma_pow2_unfold, pow2,
};
use crate::bits::{
    bits_of, bytes_bits, field_value, lemma_bits_of_len, lemma_bits_of_value,
    lemma_bits_value_bound, lemma_bits_value_fits, lemma_bytes_bits_concat, lemma_bytes_bits_len,
    lemma_packed_bits, packed, padded,
};
use crate::bucket::{
    bucket_start, decoded_payload, lemma_bucket_width_unique, lemma_payload_fits,
    lemma_payload_round_trip, payload_of, payload_width,
};
use crate::codec::{decoded_fields, header_bits, lotus_bits, lotus_decoding, lotus_encoding};
use crate::config::{lemma_top_width_fits, top_width, valid_config, width_bound};
use crate::error::LotusError;

verus! {

/// An encoding is as long as its jumpstarter and its fields together, and
/// it starts with the jumpstarter, which holds the topmost width less one.
pub proof fn lemma_lotus_bits_shape(value: nat, j_bits: nat, tiers: nat)
    ensures
        lotus_bits(value, j_bits, tiers).len() >= j_bits + payload_width(value),
        tiers > 0 ==> lotus_bits(value, j_bits, tiers).len() == lotus_bits(
            payload_width(value),
            j_bits,
            (tiers - 1) as nat,
        ).len() + payload_width(value),
        tiers == 0 ==> lotus_bits(value, j_bits, tiers).len() == j_bits + payload_width(value),
        lotus_bits(value, j_bits, tiers).subrange(0, j_bits as int) == bits_of(
            (top_width(payload_width(value), tiers) - 1) as nat,
            j_bits,
        ),
    decreases tiers,
{
    let width = payload_width(value);
    let whole = lotus_bits(value, j_bits, tiers);
    lemma_bits_of_len(payload_of(value), width);
    if tiers == 0 {
        lemma_bits_of_len((width - 1) as nat, j_bits);
        assert(whole.subrange(0, j_bits as int) =~= bits_of((width - 1) as nat, j_bits));
    } else {
        let header = lotus_bits(width, j_bits, (tiers - 1) as nat);
        lemma_lotus_bits_shape(width, j_bits, (tiers - 1) as nat);
        assert(whole.subrange(0, j_bits as int) =~= header.subrange(0, j_bits as int));
    }
}

/// Reading the fields of an encoding from its first tier on comes to the
/// last field of the encoding with its width in hand, however many fields
/// are to follow that one.
pub proof fn lemma_fields_reach_last(
    bits: Seq<bool>,
    value: nat,
    j_bits: nat,
    tiers: nat,
    more: nat,
)
    requires
        value <= u64::MAX,
        lotus_bits(value, j_bits, tiers).len() <= bits.len(),
        bits.subrange(0, lotus_bits(value, j_bits, tiers).len() as int) == lotus_bits(
            value,
            j_bits,
            tiers,
        ),
    ensures
        decoded_fields(bits, j_bits, top_width(payload_width(value), tiers), tiers + more)
            == decoded_fields(
            bits,
            (lotus_bits(value, j_bits, tiers).len() - payload_width(value)) as nat,
            payload_width(value),
            more,
        ),
    decreases tiers,
{
    let width = payload_width(value);
    let whole = lotus_bits(value, j_bits, tiers);
    lemma_lotus_bits_shape(value, j_bits, tiers);
    lemma_payload_fits(value);
    if tiers > 0 {
        let below = (tiers - 1) as nat;
        let header = lotus_bits(width, j_bits, below);
        let upper = payload_width(width);
        lemma_lotus_bits_shape(width, j_bits, below);
        lemma_payload_fits(width);
        lemma_bits_of_len(payload_of(value), width);
        lemma_bits_of_len(payload_of(width), upper);
        assert(bits.subrange(0, header.len() as int) =~= header) by {
            assert(whole.subrange(0, header.len() as int) =~= header);
            assert(bits.subrange(0, header.len() as int) =~= bits.subrange(
                0,
                whole.len() as int,
            ).subrange(0, header.len() as int));
        }
        lemma_fields_reach_last(bits, width, j_bits, below, more + 1);
        let from: int = header.len() - upper;
        assert(bits.subrange(from, from + upper) =~= bits_of(payload_of(width), upper)) by {
            assert(bits.subrange(from, from + upper) =~= header.subrange(
                from,
                from + upper,
            ));
            assert(header.subrange(from, from + upper) =~= bits_of(payload_of(width), upper));
        }
        lemma_bits_value_fits(payload_of(width), upper);
        lemma_payload_round_trip(width as u64);
        assert(field_value(bits, from as nat, upper) == payload_of(width));
        assert(decoded_payload(payload_of(width), upper) == Ok::<u64, LotusError>(width as u64));
        assert(decoded_fields(bits, from as nat, upper, more + 1) == decoded_fields(
            bits,
            header.len(),
            width,
            more,
        ));
    }
}

/// Bits that start with the encoding of a value decode to that value and
/// to the length of the encoding, whatever follows.
pub proof fn lemma_prefix_decodes(bits: Seq<bool>, value: u64, j_bits: nat, tiers: nat)
    requires
        j_bits >= 1,
        payload_width(value as nat) <= width_bound(j_bits, tiers),
        lotus_bits(value as nat, j_bits, tiers).len() <= bits.len(),
        bits.subrange(0, lotus_bits(value as nat, j_bits, tiers).len() as int) == lotus_bits(
            value as nat,
            j_bits,
            tiers,
        ),
    ensures
        j_bits <= bits.len(),
        decoded_fields(bits, j_bits, field_value(bits, 0, j_bits) + 1, tiers) == Ok::<
            (u64, nat),
            LotusError,
        >((value, lotus_bits(value as nat, j_bits, tiers).len())),
{
    let fields = lotus_bits(value as nat, j_bits, tiers);
    let width = payload_width(value as nat);
    let top = top_width(width, tiers);
    lemma_lotus_bits_shape(value as nat, j_bits, tiers);
    lemma_payload_fits(value as nat);
    lemma_top_width_fits(width, j_bits, tiers);
    lemma_top_width_positive(width, tiers);
    assert(bits.subrange(0, j_bits as int) =~= fields.subrange(0, j_bits as int)) by {
        assert(fields.subrange(0, j_bits as int) =~= bits.subrange(
            0,
            fields.len() as int,
        ).subrange(0, j_bits as int));
    }
    lemma_bits_value_fits((top - 1) as nat, j_bits);
    assert(field_value(bits, 0, j_bits) + 1 == top);
    lemma_fields_reach_last(bits, value as nat, j_bits, tiers, 0);
    let from: int = fields.len() - width;
    lemma_bits_of_len(payload_of(value as nat), width);
    assert(bits.subrange(from, from + width) =~= bits_of(payload_of(value as nat), width)) by {
        assert(bits.subrange(from, from + width) =~= bits.subrange(
            0,
            fields.len() as int,
        ).subrange(from, from + width));
    }
    lemma_bits_value_fits(payload_of(value as nat), width);
    lemma_payload_round_trip(value);
    assert(decoded_fields(bits, from as nat, width, 0) == Ok::<(u64, nat), LotusError>(
        (value, fields.len()),
    ));
}

/// Round trip: whatever a configuration can encode, decoding gives back,
/// together with the length of the encoding in bits, which is not zero.
/// Bytes that follow the encoding change nothing.
pub proof fn lemma_round_trip(value: u64, j_bits: nat, tiers: nat, following: Seq<u8>)
    requires
        valid_config(j_bits, tiers),
        payload_width(value as nat) <= width_bound(j_bits, tiers),
        8 * (packed(lotus_bits(value as nat, j_bits, tiers)) + following).len() <= usize::MAX,
    ensures
        lotus_encoding(value as nat, j_bits, tiers) == Ok::<Seq<u8>, LotusError>(
            packed(lotus_bits(value as nat, j_bits, tiers)),
        ),
        0 < lotus_bits(value as nat, j_bits, tiers).len() <= usize::MAX,
        lotus_decoding(packed(lotus_bits(value as nat, j_bits, tiers)) + following, j_bits, tiers)
            == Ok::<(u64, usize), LotusError>(
            (value, lotus_bits(value as nat, j_bits, tiers).len() as usize),
        ),
{
    let fields = lotus_bits(value as nat, j_bits, tiers);
    let bytes = packed(fields) + following;
    let bits = bytes_bits(bytes);
    lemma_packed_bits(fields);
    lemma_bytes_bits_concat(packed(fields), following);
    lemma_bytes_bits_len(bytes);
    lemma_bytes_bits_len(packed(fields));
    assert(bits.subrange(0, fields.len() as int) =~= fields) by {
        assert(padded(fields).subrange(0, fields.len() as int) =~= fields);
    }
    lemma_lotus_bits_shape(value as nat, j_bits, tiers);
    lemma_prefix_decodes(bits, value, j_bits, tiers);
}

/// The decoder reads no further than it says: input that starts with the
/// bits that were consumed decodes to the same value and the same count.
pub proof fn lemma_decode_reads_prefix(
    first: Seq<u8>,
    second: Seq<u8>,
    j_bits: nat,
    tiers: nat,
)
    requires
        8 * first.len() <= usize::MAX,
        8 * second.len() <= usize::MAX,
        lotus_decoding(first, j_bits, tiers) is Ok,
        lotus_decoding(first, j_bits, tiers)->Ok_0.1 <= 8 * second.len(),
        bytes_bits(second).subrange(0, lotus_decoding(first, j_bits, tiers)->Ok_0.1 as int)
            == bytes_bits(first).subrange(0, lotus_decoding(first, j_bits, tiers)->Ok_0.1 as int),
    ensures
        lotus_decoding(second, j_bits, tiers) == lotus_decoding(first, j_bits, tiers),
{
    let value = lotus_decoding(first, j_bits, tiers)->Ok_0.0;
    lemma_decoded_is_canonical(first, j_bits, tiers);
    lemma_bytes_bits_len(first);
    lemma_bytes_bits_len(second);
    lemma_prefix_decodes(bytes_bits(second), value, j_bits, tiers);
}

/// The topmost width of a chain of positive widths is positive.
pub proof fn lemma_top_width_positive(width: nat, tiers: nat)
    requires
        width >= 1,
    ensures
        top_width(width, tiers) >= 1,
    decreases tiers,
{
    if tiers > 0 {
        lemma_payload_fits(width);
        lemma_top_width_positive(payload_width(width), (tiers - 1) as nat);
    }
}

/// Canonical form: a value has one encoding under a configuration, and no
/// two values share an encoding.
pub proof fn lemma_canonical_form(first: u64, second: u64, j_bits: nat, tiers: nat)
    requires
        lotus_encoding(first as nat, j_bits, tiers) is Ok,
        8 * lotus_encoding(first as nat, j_bits, tiers)->Ok_0.len() <= usize::MAX,
    ensures
        first == second ==> lotus_encoding(first as nat, j_bits, tiers) == lotus_encoding(
            second as nat,
            j_bits,
            tiers,
        ),
        lotus_encoding(first as nat, j_bits, tiers) == lotus_encoding(second as nat, j_bits, tiers)
            ==> first == second,
{
    if lotus_encoding(first as nat, j_bits, tiers) == lotus_encoding(second as nat, j_bits, tiers) {
        let bytes = packed(lotus_bits(first as nat, j_bits, tiers));
        assert(bytes + Seq::<u8>::empty() =~= bytes);
        lemma_round_trip(first, j_bits, tiers, Seq::empty());
        lemma_round_trip(second, j_bits, tiers, Seq::empty());
    }
}

/// The value of a field and the width of the field are the payload and the
/// payload width of what the field stands for.
pub proof fn lemma_field_is_payload(payload: nat, width: nat)
    requires
        payload < pow2(width),
        decoded_payload(payload, width) is Ok,
    ensures
        payload_width(decoded_payload(payload, width)->Ok_0 as nat) == width,
        payload_of(decoded_payload(payload, width)->Ok_0 as nat) == payload,
{
    let value = decoded_payload(payload, width)->Ok_0 as nat;
    lemma2_to64();
    lemma_pow2_strictly_increases(0, width);
    lemma_pow2_unfold(width + 1);
    assert(value + 1 == bucket_start(width) + payload);
    lemma_bucket_width_unique(value + 1, width);
}

/// Reading fields that follow a header gives a value whose encoding is what
/// was read, header and fields together.
pub proof fn lemma_fields_are_canonical(
    bits: Seq<bool>,
    from: nat,
    width: nat,
    more: nat,
    j_bits: nat,
    tiers: nat,
)
    requires
        from <= bits.len(),
        bits.subrange(0, from as int) == header_bits(width, j_bits, tiers),
        decoded_fields(bits, from, width, more) is Ok,
    ensures
        decoded_fields(bits, from, width, more)->Ok_0.1 <= bits.len(),
        bits.subrange(0, decoded_fields(bits, from, width, more)->Ok_0.1 as int) == lotus_bits(
            decoded_fields(bits, from, width, more)->Ok_0.0 as nat,
            j_bits,
            tiers + more,
        ),
        top_width(
            payload_width(decoded_fields(bits, from, width, more)->Ok_0.0 as nat),
            tiers + more,
        ) == top_width(width, tiers),
    decreases more,
{
    let field = bits.subrange(from as int, (from + width) as int);
    let payload = field_value(bits, from, width);
    let value = decoded_payload(payload, width)->Ok_0 as nat;
    lemma_bits_value_bound(field);
    lemma_bits_of_value(field);
    lemma_field_is_payload(payload, width);
    assert(bits.subrange(0, (from + width) as int) =~= bits.subrange(0, from as int) + field);
    assert(bits.subrange(0, (from + width) as int) == lotus_bits(value, j_bits, tiers));
    if more > 0 {
        lemma_fields_are_canonical(
            bits,
            from + width,
            value,
            (more - 1) as nat,
            j_bits,
            tiers + 1,
        );
    }
}

/// Canonical form, from the decoder's side: whatever decodes to a value
/// starts with the encoding of that value, bit for bit, and the value can be
/// encoded under the configuration.
pub proof fn lemma_decoded_is_canonical(bytes: Seq<u8>, j_bits: nat, tiers: nat)
    requires
        lotus_decoding(bytes, j_bits, tiers) is Ok,
        8 * bytes.len() <= usize::MAX,
    ensures
        lotus_decoding(bytes, j_bits, tiers)->Ok_0.1 <= 8 * bytes.len(),
        bytes_bits(bytes).subrange(0, lotus_decoding(bytes, j_bits, tiers)->Ok_0.1 as int)
            == lotus_bits(lotus_decoding(bytes, j_bits, tiers)->Ok_0.0 as nat, j_bits, tiers),
        lotus_encoding(lotus_decoding(bytes, j_bits, tiers)->Ok_0.0 as nat, j_bits, tiers) is Ok,
{
    let bits = bytes_bits(bytes);
    let jump = bits.subrange(0, j_bits as int);
    let top = field_value(bits, 0, j_bits) + 1;
    let value = lotus_decoding(bytes, j_bits, tiers)->Ok_0.0 as nat;
    lemma_bytes_bits_len(bytes);
    lemma_bits_value_bound(jump);
    lemma_bits_of_value(jump);
    lemma_fields_are_canonical(bits, j_bits, top, tiers, j_bits, 0);
    lemma_top_width_fits(payload_width(value), j_bits, tiers);
}

/// Empty input: under a valid configuration, decoding no bytes fails for
/// want of input.
pub proof fn lemma_decode_empty(bytes: Seq<u8>, j_bits: nat, tiers: nat)
    requires
        valid_config(j_bits, tiers),
        bytes.len() == 0,
    ensures
        lotus_decoding(bytes, j_bits, tiers) == Err::<(u64, usize), LotusError>(
            LotusError::UnexpectedEof,
        ),
{
    lemma_bytes_bits_len(bytes);
}

/// Overflow: under a valid configuration, a value whose payload is wider
/// than the configuration's bound is not encoded, and every other value is.
pub proof fn lemma_encode_overflow(value: u64, j_bits: nat, tiers: nat)
    requires
        valid_config(j_bits, tiers),
    ensures
        payload_width(value as nat) > width_bound(j_bits, tiers) <==> lotus_encoding(
            value as nat,
            j_bits,
            tiers,
        ) == Err::<Seq<u8>, LotusError>(LotusError::ValueTooLarge),
        payload_width(value as nat) <= width_bound(j_bits, tiers) <==> lotus_encoding(
            value as nat,
            j_bits,
            tiers,
        ) is Ok,
{
}

} // verus!
