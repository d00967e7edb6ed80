//! The gzip container around a DEFLATE stream: a header with an optional
//! file name, the stream, and a trailer with the CRC-32 and the size of the
//! bytes that the stream holds.

use vstd::prelude::*;
use crc::{Crc, CRC_32_ISO_HDLC};
use crate::bitio::BitReader;
use crate::bits::{bytes_bits, value_of, le_bytes, byte_of};
use crate::deflate::{
    compress as deflate_compress, decompress as deflate_decompress, DeflateOptions,
};
use crate::format::{DeflateError, spec_decompress};
use crate::stream::spec_compress;

verus! {

/// Why a gzip member could not be read.
#[derive(Debug, Clone, Copy, PartialEq, Eq, Structural)]
pub enum GzipError {
    /// The input ended inside the header or the trailer.
    UnexpectedEof,
    /// The input does not start with the two bytes that mark gzip data.
    BadMagic,
    /// The DEFLATE stream could not be decoded.
    Payload(DeflateError),
    /// The decoded bytes do not have the CRC-32 that the trailer gives.
    BadChecksum,
    /// The decoded bytes do not have the size that the trailer gives.
    BadSize,
}

/// The CRC-32 of `data` with the ISO HDLC parameters, as gzip uses it.
pub uninterp spec fn crc32_iso_hdlc(data: Seq<u8>) -> u32;

/// The checksum that `crc::Crc::<u32>::checksum` computes with the
/// algorithm `CRC_32_ISO_HDLC`: a function of the bytes alone.
#[verifier::external_body]
fn crc32(data: &[u8]) -> (r: u32)
    ensures
        r == crc32_iso_hdlc(data@),
{
    Crc::<u32>::new(&CRC_32_ISO_HDLC).checksum(data)
}

/// The greatest number of bytes of a block that `compress` writes.
pub const BLOCK_SIZE: usize = 16384;

/// The bytes of a member's header: the marker, the method (8: deflate), the
/// flags (8: a file name follows), no time, the extra flags 4, the system
/// 255 (unknown), and the name with a 0 byte at its end.
pub open spec fn header_of(name: Seq<u8>) -> Seq<u8> {
    seq![0x1fu8, 0x8b, 8, 8, 0, 0, 0, 0, 4, 255] + name + seq![0u8]
}

/// A member: its header, the DEFLATE stream, and the trailer of checksum
/// and size, both in little-endian order.
pub open spec fn member_of(name: Seq<u8>, payload: Seq<u8>, crc: u32, size: u32) -> Seq<u8> {
    header_of(name) + payload + le_bytes(crc as u64, 4) + le_bytes(size as u64, 4)
}

/// Whether flag `k` is set in the flags byte.
pub open spec fn flag(flags: u8, k: nat) -> bool {
    (flags as nat / vstd::arithmetic::power2::pow2(k)) % 2 == 1
}

/// The place just past the first 0 byte at or after `at`; the end of the
/// data if there is none.
pub open spec fn past_zero(data: Seq<u8>, at: nat) -> nat
    decreases data.len() - at,
{
    if at >= data.len() {
        at
    } else if data[at as int] == 0 {
        at + 1
    } else {
        past_zero(data, at + 1)
    }
}

/// Where the DEFLATE stream of a member starts: after the 10 bytes of the
/// fixed header and the optional fields that the flags announce: an extra
/// field with its length in 2 bytes (flag 2), a name (flag 3) and a comment
/// (flag 4), each up to a 0 byte, and a header checksum of 2 bytes (flag 1).
pub open spec fn payload_offset(data: Seq<u8>) -> Result<nat, GzipError> {
    if data.len() < 10 {
        Err(GzipError::UnexpectedEof)
    } else if data[0] != 0x1f || data[1] != 0x8b {
        Err(GzipError::BadMagic)
    } else {
        let flags = data[3];
        if flag(flags, 2) && data.len() < 12 {
            Err(GzipError::UnexpectedEof)
        } else {
            let after_extra: nat = if flag(flags, 2) {
                (12 + data[10] + 256 * data[11]) as nat
            } else {
                10
            };
            let after_name = if flag(flags, 3) { past_zero(data, after_extra) } else { after_extra };
            let after_comment = if flag(flags, 4) { past_zero(data, after_name) } else { after_name };
            let start = if flag(flags, 1) { after_comment + 2 } else { after_comment };
            if start > data.len() {
                Err(GzipError::UnexpectedEof)
            } else {
                Ok(start)
            }
        }
    }
}

/// The number that 4 bytes hold in little-endian order.
pub open spec fn le_value(bytes: Seq<u8>) -> nat {
    value_of(bytes_bits(bytes))
}

/// What a trailer says of the bytes `out`: nothing, if it gives their
/// checksum `crc` and their size.
pub open spec fn trailer_check(trailer: Seq<u8>, crc: u32, out_len: nat) -> Result<(), GzipError> {
    if trailer.len() < 8 {
        Err(GzipError::UnexpectedEof)
    } else if le_value(trailer.subrange(0, 4)) != crc {
        Err(GzipError::BadChecksum)
    } else if le_value(trailer.subrange(4, 8)) != out_len % 0x1_0000_0000 {
        Err(GzipError::BadSize)
    } else {
        Ok(())
    }
}

/// The bytes that a member holds.
pub open spec fn spec_gunzip(data: Seq<u8>) -> Result<Seq<u8>, GzipError> {
    match payload_offset(data) {
        Err(e) => Err(e),
        Ok(start) => match spec_decompress(data.skip(start as int)) {
            Err(e) => Err(GzipError::Payload(e)),
            Ok((out, used)) => match trailer_check(
                data.skip((start + used) as int),
                crc32_iso_hdlc(out),
                out.len(),
            ) {
                Err(e) => Err(e),
                Ok(_) => Ok(out),
            },
        },
    }
}

/// The CRC-32 of `data` and its size modulo `2^32`.
pub fn compute_crc_and_size(data: &[u8]) -> (r: (u32, u32))
    ensures
        r.0 == crc32_iso_hdlc(data@),
        r.1 == data@.len() % 0x1_0000_0000,
{
    let crc = crc32(data);
    let size = (data.len() as u64 % 0x1_0000_0000) as u32;
    (crc, size)
}

/// Appends the 4 bytes of `word` in little-endian order.
fn push_le32(out: &mut Vec<u8>, word: u32)
    ensures
        final(out)@ == old(out)@ + le_bytes(word as u64, 4),
{
    let mut k: usize = 0;
    while k < 4
        invariant
            k <= 4,
            out@ == old(out)@ + le_bytes(word as u64, k as nat),
        decreases 4 - k,
    {
        let b = byte_of(word as u64, k);
        out.push(b);
        proof {
            assert(out@ =~= old(out)@ + le_bytes(word as u64, (k + 1) as nat));
            assert(le_bytes(word as u64, 8)[k as int] == le_bytes(word as u64, (k + 1) as nat)[k as int]);
        }
        k += 1;
    }
}

/// Appends the bytes of `part`.
fn push_all(out: &mut Vec<u8>, part: &[u8])
    ensures
        final(out)@ == old(out)@ + part@,
{
    let mut k: usize = 0;
    while k < part.len()
        invariant
            k <= part@.len(),
            out@ == old(out)@ + part@.take(k as int),
        decreases part.len() - k,
    {
        out.push(part[k]);
        proof {
            assert(out@ =~= old(out)@ + part@.take(k + 1));
        }
        k += 1;
    }
    proof {
        assert(part@.take(part@.len() as int) =~= part@);
    }
}

/// Puts a member together from its parts.
pub fn frame(name: &[u8], payload: &[u8], crc: u32, size: u32) -> (out: Vec<u8>)
    ensures
        out@ == member_of(name@, payload@, crc, size),
{
    let mut out: Vec<u8> = Vec::new();
    out.push(0x1f);
    out.push(0x8b);
    out.push(8);
    out.push(8);
    out.push(0);
    out.push(0);
    out.push(0);
    out.push(0);
    out.push(4);
    out.push(255);
    proof {
        assert(out@ =~= seq![0x1fu8, 0x8b, 8, 8, 0, 0, 0, 0, 4, 255]);
    }
    push_all(&mut out, name);
    out.push(0);
    proof {
        assert(out@ =~= header_of(name@));
    }
    push_all(&mut out, payload);
    push_le32(&mut out, crc);
    push_le32(&mut out, size);
    out
}

/// Compresses `input` into a gzip member that names `name` as its file.
pub fn compress(input: &[u8], name: &[u8]) -> (out: Vec<u8>)
    requires
        input@.len() > 0,
    ensures
        out@ == member_of(
            name@,
            spec_compress(input@, 16384),
            crc32_iso_hdlc(input@),
            (input@.len() % 0x1_0000_0000) as u32,
        ),
{
    let payload = deflate_compress(input, DeflateOptions { block_size: BLOCK_SIZE });
    let sums = compute_crc_and_size(input);
    frame(name, payload.as_slice(), sums.0, sums.1)
}

/// The place just past the first 0 byte at or after `at`.
fn skip_past_zero(data: &[u8], at: usize) -> (r: usize)
    requires
        at <= data@.len(),
    ensures
        r == past_zero(data@, at as nat),
        at <= r <= data@.len(),
{
    let mut k = at;
    while k < data.len() && data[k] != 0
        invariant
            at <= k <= data@.len(),
            past_zero(data@, at as nat) == past_zero(data@, k as nat),
        decreases data.len() - k,
    {
        k += 1;
    }
    if k < data.len() {
        k + 1
    } else {
        k
    }
}

/// Whether flag `k` is set in the flags byte.
fn has_flag(flags: u8, k: u8) -> (r: bool)
    requires
        1 <= k <= 4,
    ensures
        r == flag(flags, k as nat),
{
    proof {
        vstd::arithmetic::power2::lemma2_to64();
    }
    let unit: u8 = if k == 1 { 2 } else if k == 2 { 4 } else if k == 3 { 8 } else { 16 };
    (flags / unit) % 2 == 1
}

/// Finds where the DEFLATE stream of a member starts.
pub fn payload_start(data: &[u8]) -> (r: Result<usize, GzipError>)
    ensures
        match payload_offset(data@) {
            Ok(start) => r == Ok::<usize, GzipError>(start as usize) && start <= data@.len(),
            Err(e) => r == Err::<usize, GzipError>(e),
        },
{
    if data.len() < 10 {
        return Err(GzipError::UnexpectedEof);
    }
    if data[0] != 0x1f || data[1] != 0x8b {
        return Err(GzipError::BadMagic);
    }
    let flags = data[3];
    let mut at: usize = 10;
    if has_flag(flags, 2) {
        if data.len() < 12 {
            return Err(GzipError::UnexpectedEof);
        }
        let extra = data[10] as usize + 256 * (data[11] as usize);
        if extra > data.len() - 12 {
            return Err(GzipError::UnexpectedEof);
        }
        at = 12 + extra;
    }
    if has_flag(flags, 3) {
        at = skip_past_zero(data, at);
    }
    if has_flag(flags, 4) {
        at = skip_past_zero(data, at);
    }
    if has_flag(flags, 1) {
        if data.len() - at < 2 {
            return Err(GzipError::UnexpectedEof);
        }
        at = at + 2;
    }
    Ok(at)
}

/// Holds the trailer at the start of `trailer` against the checksum and the
/// size of the decoded bytes.
pub fn check_trailer(trailer: &[u8], crc: u32, size: usize) -> (r: Result<(), GzipError>)
    ensures
        r == trailer_check(trailer@, crc, size as nat),
{
    if trailer.len() < 8 {
        return Err(GzipError::UnexpectedEof);
    }
    let mut reader = BitReader::new(trailer);
    let ghost all = bytes_bits(trailer@);
    let stored_crc = match reader.read_bits(32) {
        Ok(v) => v,
        Err(_) => {
            return Err(GzipError::UnexpectedEof);
        },
    };
    let stored_size = match reader.read_bits(32) {
        Ok(v) => v,
        Err(_) => {
            return Err(GzipError::UnexpectedEof);
        },
    };
    proof {
        crate::bits::lemma_bytes_bits_skip(trailer@, 4);
        crate::bits::lemma_bytes_bits_skip(trailer@, 8);
        crate::bits::lemma_bytes_bits_skip(trailer@.take(8), 4);
        assert(trailer@.take(8).take(4) =~= trailer@.subrange(0, 4));
        assert(trailer@.take(8).skip(4) =~= trailer@.subrange(4, 8));
        assert(all.skip(0).take(32) =~= bytes_bits(trailer@.subrange(0, 4)));
        assert(all.skip(32).take(32) =~= bytes_bits(trailer@.subrange(4, 8))) by {
            assert(all.take(64).skip(32) =~= all.skip(32).take(32));
        }
    }
    if stored_crc != crc as u64 {
        return Err(GzipError::BadChecksum);
    }
    if stored_size != size as u64 % 0x1_0000_0000 {
        return Err(GzipError::BadSize);
    }
    Ok(())
}

/// Reads a gzip member: finds the DEFLATE stream behind the header, decodes
/// it, and holds the result against the trailer.
pub fn decompress(data: &[u8]) -> (r: Result<Vec<u8>, GzipError>)
    ensures
        match spec_gunzip(data@) {
            Ok(out) => r is Ok && r->Ok_0@ == out,
            Err(e) => r == Err::<Vec<u8>, GzipError>(e),
        },
{
    let start = match payload_start(data) {
        Ok(start) => start,
        Err(e) => {
            return Err(e);
        },
    };
    let stream = vstd::slice::slice_subrange(data, start, data.len());
    proof {
        assert(stream@ =~= data@.skip(start as int));
    }
    let found = match deflate_decompress(stream) {
        Ok(found) => found,
        Err(e) => {
            return Err(GzipError::Payload(e));
        },
    };
    let out = found.0;
    let used = found.1;
    let trailer = vstd::slice::slice_subrange(data, start + used, data.len());
    proof {
        assert(trailer@ =~= data@.skip((start + used) as int));
    }
    let crc = crc32(out.as_slice());
    match check_trailer(trailer, crc, out.len()) {
        Ok(()) => Ok(out),
        Err(e) => Err(e),
    }
}

} // verus!
