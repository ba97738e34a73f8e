//! Hides a byte message in the DC coefficients of the 8×8 blocks of an RGB
//! pixel grid, and reads it back.
//!
//! The verified part works on integers only: the bitstream adapter, the
//! block tiler, the embedding rule on quantized coefficients, dequantization
//! and the encode/decode pipeline with its capacity and size checks. The
//! floating-point transform and quantization of a block are done by the caller
//! and handed in as plain integers.

pub mod bitstream;
pub mod coefficient;
pub mod error;
pub mod tiler;
pub mod codec;

pub use bitstream::{bits_to_bytes, message_bits};
pub use codec::{decode_message, encode_message, Encoded};
pub use coefficient::{dequantize, embed_bit, extract_bit, BLOCK_LEN, QUANT_TABLE};
pub use error::StegError;
pub use tiler::{capacity, tile, untile};
