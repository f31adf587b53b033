//! LEB128 (little endian base 128) encoding and decoding of unsigned 64-bit
//! integers, with a decoder that rejects values above a caller's bound.
pub mod codec;
pub mod error;
pub mod laws;
pub mod model;

pub use codec::read;
pub use error::Error;
