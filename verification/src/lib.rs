//! Decoder for 8-bit truecolor PNG images: chunk container, zlib/DEFLATE
//! decompression and scanline-filter reconstruction, all on in-memory bytes.
pub mod bits;
pub mod bytes;
pub mod chunk;
pub mod encode;
pub mod error;
pub mod filter;
pub mod header;
pub mod huffman;
pub mod inflate;
pub mod png;
