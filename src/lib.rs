//! A codec for PNG chunks: the four-letter chunk type, the checksummed
//! chunk record, the PNG container, and hiding a text message in a chunk.

pub mod chunk;
pub mod chunk_type;
pub mod commands;
pub mod png;
