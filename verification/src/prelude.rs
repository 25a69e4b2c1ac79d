//! The types of the codec, for one import.

pub use crate::chunk::Chunk;
pub use crate::chunk_type::ChunkType;
pub use crate::error::PngError;
pub use crate::png::Png;
