//! Lotus: a variable-length, bit-exact encoding of non-negative integers.
//!
//! A value is split into a width and a payload by a doubling-range bucketing
//! scheme; the width is encoded again by the same scheme a fixed number of
//! times (the tiers), and the topmost width is stored in a small fixed-width
//! header field (the jumpstarter).
//!
//! - `bits`: bit sequences, the model of everything written and read
//! - `writer`, `reader`: bit-level output and input
//! - `bucket`: the payload codec, one level of bucketing
//! - `config`: configurations and the widths that they can express
//! - `codec`: encoding and decoding of 64-bit values
//! - `laws`: what holds of encoding and decoding together
//! - `magnitude`, `big_codec`: values of any size and their encoding
//! - `hex_text`, `lines`: encodings as hexadecimal text, one value per line
//! - `compare`: two other codes, for size comparisons
//! - `error`: the failures

pub mod big_codec;
pub mod bits;
pub mod bucket;
pub mod codec;
pub mod compare;
pub mod config;
pub mod error;
pub mod hex_text;
pub mod laws;
pub mod lines;
pub mod magnitude;
pub mod reader;
pub mod writer;

pub use crate::big_codec::{lotus_encode_biguint, lotus_encode_value_biguint, write_biguint_bits};
pub use crate::bucket::{lotus_decode_value, lotus_encode_value};
pub use crate::codec::{
    lotus_decode_u64, lotus_encode_header, lotus_encode_small, lotus_encode_u64,
    lotus_encoded_bits,
};
pub use crate::compare::{elias_delta_len, leb128_encode};
pub use crate::config::{max_width_for_config, LOTUS_J1D2, LOTUS_J2D1, LOTUS_J3D1};
pub use crate::error::LotusError;
pub use crate::hex_text::{lotus_decode_hex, lotus_encode_hex};
pub use crate::lines::{lotus_decode_line, lotus_encode_line};
pub use crate::magnitude::Magnitude;
pub use crate::reader::BitReader;
pub use crate::writer::BitWriter;
