//! The XTEA block cipher: a 64-bit block, 128-bit key Feistel cipher, with
//! adapters that apply it block by block to byte buffers and byte streams in a
//! chosen byte order.
//!
//! - `block`: the mathematical model of the block transform and its inverse.
//! - `cipher`: the cipher instance and its block operations.
//! - `words`: words and their bytes, in big- or little-endian order.
//! - `buffer`: the transform applied to byte buffers.
//! - `stream`: the decisions of a pass over a byte stream.

pub mod block;
pub mod buffer;
pub mod cipher;
pub mod stream;
pub mod words;

pub use block::DELTA;
pub use cipher::{DEFAULT_ROUNDS, XTEA};
pub use stream::{ReadOutcome, StreamAction, StreamError, StreamState};
pub use words::{decode_word, encode_word, Endian};
