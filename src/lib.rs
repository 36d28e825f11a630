//! LZW compression over a fixed 12-bit code space, with a container format
//! that packs two 12-bit symbols into three bytes.
pub mod codec;
pub mod decoder;
pub mod encoder;
pub mod error;
pub mod laws;
pub mod stream;

pub use codec::{lzw_decode, lzw_encode};
pub use decoder::{decode_from_lzwstream, Decoder};
pub use encoder::{encode_to_lzwstream, Encoder};
pub use error::LzwError;
pub use stream::{bitstream_to_lzwstream, lzwstream_to_bitstream, LzwStream, SymbolUnit};
