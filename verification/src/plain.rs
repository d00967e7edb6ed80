//! A plain Huffman coder for bytes: the code table goes in front of the
//! coded bytes, and bits are packed most significant first.

pub mod bitio;
pub mod huffman;
