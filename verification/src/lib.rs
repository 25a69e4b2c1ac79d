//! A codec for the PNG chunk format.
//!
//! A PNG stream is a signature of eight bytes and a run of chunk records. The
//! codec parses a stream into chunks, checks the type code and the checksum
//! of each, lets chunks be appended, found and removed by type, and writes
//! the stream back, byte for byte.

pub mod chunk;
pub mod chunk_type;
pub mod crc;
pub mod error;
pub mod png;
pub mod prelude;
pub mod text;
pub mod wire;
