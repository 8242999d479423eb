//! A verified DEFLATE decompression engine for a bare-metal handheld target:
//! a bit-level reader, a canonical Huffman tree builder and decoder, an LZ77
//! back-reference resolver writing through a 16-bit-wide output path, a
//! reference-counted bump arena for scratch memory, and a read-only directory
//! lookup over an in-memory image.

pub mod fast_mem;
pub mod file;
pub mod util;
pub mod video;

pub use file::RomFile;
