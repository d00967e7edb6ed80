//! A DEFLATE encoder and decoder, verified with Verus.
//!
//! The library has three parts that build on each other: a bit stream that
//! packs fields of up to 64 bits into bytes ([`bitio`]), Huffman codes with
//! their canonical tables, their decoding trees and the construction of
//! length-limited codes by package-merge ([`huffman`], [`tree`],
//! [`package_merge`]), and the blocks of a DEFLATE stream with dynamic
//! Huffman codes ([`deflate`]), which [`gzip`] wraps into gzip members.
//!
//! What the functions compute is said by specification functions: [`bits`]
//! for the layout of bits, [`canonical`] and [`kraft`] for codes and their
//! lengths, [`format`] for the stream as the decoder reads it and [`stream`]
//! for the stream as the encoder writes it. [`roundtrip`] proves that the
//! two agree: what is compressed decompresses to itself.
//!
//! [`plain`] is a second, simpler coder: Huffman codes for bytes with the
//! code table in front of the coded bytes.

pub mod bitio;
pub mod bits;
pub mod bitset;
pub mod canonical;
pub mod deflate;
pub mod format;
pub mod gzip;
pub mod huffman;
pub mod kraft;
pub mod nonmax;
pub mod package_merge;
pub mod package_merge_proofs;
pub mod plain;
pub mod reverse_bits;
pub mod roundtrip;
pub mod stream;
pub mod tree;
