//! Deflate compression: bit output, Huffman code construction, LZ77 matching
//! and the streaming compressor that ties them together.

pub mod adler;
pub mod bits;
pub mod block;
pub mod bytes;
pub mod codes;
pub mod compressor;
pub mod dict;
pub mod emit;
pub mod encode;
pub mod flags;
pub mod huffman;
pub mod lz;
pub mod prefix;
pub mod radix;
pub mod record;
pub mod tables;
