//! A streaming 12-bit LZW codec with an adaptive dictionary and an
//! in-stream dictionary-flush escape.
use vstd::prelude::*;

pub mod codes;
pub mod packing;
pub mod dictionary;
pub mod stream;
pub mod encoder;
pub mod decoder;
pub mod laws;

pub use codes::{MAX_DICT_SIZE, NOOP, FLUSH_DICTIONARY, EOF, EOS};
pub use encoder::{compress, Compressor};
pub use decoder::{decompress, Decompressor, DecodeError};

verus! {

} // verus!
