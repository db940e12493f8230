//! A two-stage compressor (LZSS, then Huffman coding) and the `.piadina`
//! archive format built on it.
pub mod lzss;
pub mod huffman;
pub mod compress;
pub mod crc32;
pub mod archive;
pub mod update;
pub mod format_v2;
