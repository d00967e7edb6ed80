//! The bits that the encoder writes for a sequence of bytes.
//!
//! The bytes are cut into blocks. Each block gets a prefix code for its
//! literals and the end-of-block symbol by package-merge, with no code longer
//! than 15 bits, and declares a single distance code of no bits. The lengths
//! of both codes are run-length coded, and the symbols of that coding get a
//! code of their own, of at most 7 bits.

use vstd::prelude::*;
use crate::bits::{bits_of, bytes_bits, value_of, zeros};
use crate::format::{canonical_codes, length_order};
use crate::huffman::PrefixCode;
use crate::package_merge::spec_package_merge;

verus! {

/// How often `byte` occurs in `data`.
pub open spec fn occurrences(data: Seq<u8>, byte: int) -> nat
    decreases data.len(),
{
    if data.len() == 0 {
        0
    } else {
        occurrences(data.drop_last(), byte) + (if data.last() == byte { 1nat } else { 0nat })
    }
}

/// The frequencies of the 257 symbols of a block: those of the bytes of
/// `chunk`, and 1 for the end-of-block symbol.
pub open spec fn literal_freqs(chunk: Seq<u8>) -> Seq<u32> {
    Seq::new(257, |s: int| if s == 256 { 1u32 } else { occurrences(chunk, s) as u32 })
}

/// The code lengths that package-merge gives, as bytes; none where it fails.
pub open spec fn limited_lengths(freqs: Seq<u32>, max_length: nat) -> Seq<u8> {
    match spec_package_merge(freqs, max_length) {
        Ok(lengths) => Seq::new(lengths.len(), |i: int| lengths[i] as u8),
        Err(_) => Seq::empty(),
    }
}

/// How many lengths from `j` on are `v`, one after the other.
pub open spec fn repeats(lengths: Seq<u8>, v: u8, j: int) -> nat
    decreases lengths.len() - j,
{
    if 0 <= j < lengths.len() && lengths[j] == v {
        1 + repeats(lengths, v, j + 1)
    } else {
        0
    }
}

/// A run ends with the lengths.
pub proof fn lemma_repeats_bound(lengths: Seq<u8>, v: u8, j: int)
    requires
        0 <= j <= lengths.len(),
    ensures
        j + repeats(lengths, v, j) <= lengths.len(),
    decreases lengths.len() - j,
{
    if j < lengths.len() && lengths[j] == v {
        lemma_repeats_bound(lengths, v, j + 1);
    }
}

/// The run-length coding of the lengths from `i` on.
///
/// A run of 3 or more lengths of 0 becomes symbol 17 with the run's length
/// less 3, if the run is no longer than 10, and else symbol 18 with the
/// length less 11, for at most 138 lengths at a time. Any other run of 4 or
/// more becomes the length, symbol 16, and the number of repetitions less 3,
/// for at most 7 lengths at a time. Any other length stands for itself.
pub open spec fn rle_symbols(lengths: Seq<u8>, i: int) -> Seq<u16>
    decreases lengths.len() - i,
{
    if i < 0 || i >= lengths.len() {
        Seq::empty()
    } else {
        let v = lengths[i];
        let run = 1 + repeats(lengths, v, i + 1);
        proof {
            lemma_repeats_bound(lengths, v, i + 1);
        }
        if v == 0 && run >= 3 {
            if run <= 10 {
                seq![17u16, (run - 3) as u16] + rle_symbols(lengths, i + run)
            } else {
                let taken = if run < 138 { run } else { 138 };
                seq![18u16, (taken - 11) as u16] + rle_symbols(lengths, i + taken)
            }
        } else if run >= 4 {
            let taken = if run < 7 { run } else { 7 };
            seq![v as u16, 16u16, (taken - 4) as u16] + rle_symbols(lengths, i + taken)
        } else {
            seq![v as u16] + rle_symbols(lengths, i + 1)
        }
    }
}

/// The run-length coding of the lengths of a table; a table without symbols
/// is written as a single length of 0.
pub open spec fn table_symbols(lengths: Seq<u8>) -> Seq<u16> {
    if lengths.len() == 0 {
        seq![0u16]
    } else {
        rle_symbols(lengths, 0)
    }
}

/// How many numbers the first symbol of a run-length coding takes up: the
/// symbols from 16 on are followed by an argument.
pub open spec fn item_len(stream: Seq<u16>) -> int {
    if stream[0] >= 16 && stream.len() >= 2 { 2 } else { 1 }
}

/// How many bits the argument of a symbol has.
pub open spec fn arg_bits(symbol: u16) -> nat {
    if symbol == 16 { 2 } else if symbol == 17 { 3 } else if symbol == 18 { 7 } else { 0 }
}

/// Whether a run-length coding is well-formed: its symbols are below 19, and
/// each argument is there and fits its bits.
pub open spec fn valid_stream(stream: Seq<u16>) -> bool
    decreases stream.len(),
{
    if stream.len() == 0 {
        true
    } else {
        let symbol = stream[0];
        &&& symbol <= 18
        &&& (symbol >= 16 ==> stream.len() >= 2 && stream[1] < vstd::arithmetic::power2::pow2(
            arg_bits(symbol),
        ))
        &&& valid_stream(stream.skip(item_len(stream)))
    }
}

/// How often `symbol` occurs in a run-length coding, arguments aside.
pub open spec fn symbol_count(stream: Seq<u16>, symbol: int) -> nat
    decreases stream.len(),
{
    if stream.len() == 0 {
        0
    } else {
        (if stream[0] == symbol { 1nat } else { 0nat }) + symbol_count(
            stream.skip(item_len(stream)),
            symbol,
        )
    }
}

/// The frequencies of the 19 symbols of the run-length codings of two tables.
pub open spec fn length_freqs(literals: Seq<u16>, distances: Seq<u16>) -> Seq<u32> {
    Seq::new(19, |k: int| (symbol_count(literals, k) + symbol_count(distances, k)) as u32)
}

/// The bits of a run-length coding written with `codes`: the code of each
/// symbol, followed by its argument where it has one.
pub open spec fn stream_bits(codes: Seq<PrefixCode>, stream: Seq<u16>) -> Seq<bool>
    decreases stream.len(),
{
    if stream.len() == 0 {
        Seq::empty()
    } else {
        let symbol = stream[0];
        codes[symbol as int].bits() + (if symbol >= 16 {
            bits_of(stream[1] as u64, arg_bits(symbol))
        } else {
            Seq::empty()
        }) + stream_bits(codes, stream.skip(item_len(stream)))
    }
}

/// How many lengths of code-length codes are written: up to the last symbol
/// in `length_order` among the first `k` that has a code, and at least 4.
pub open spec fn trimmed_count(lengths: Seq<u8>, k: nat) -> nat
    decreases k,
{
    if k <= 4 {
        4
    } else if lengths[length_order()[k - 1] as int] != 0 {
        k
    } else {
        trimmed_count(lengths, (k - 1) as nat)
    }
}

/// The lengths of the code-length codes from place `i` of `length_order` up
/// to `count`, 3 bits each.
pub open spec fn order_bits(lengths: Seq<u8>, count: nat, i: nat) -> Seq<bool>
    decreases count - i,
{
    if i >= count {
        Seq::empty()
    } else {
        bits_of(lengths[length_order()[i as int] as int] as u64, 3) + order_bits(
            lengths,
            count,
            i + 1,
        )
    }
}

/// The header that declares the codes of the given lengths.
pub open spec fn header_bits(literals: Seq<u8>, distances: Seq<u8>) -> Seq<bool> {
    let literal_stream = table_symbols(literals);
    let distance_stream = table_symbols(distances);
    let lengths = limited_lengths(length_freqs(literal_stream, distance_stream), 7);
    let codes = canonical_codes(lengths);
    let count = trimmed_count(lengths, 19);
    bits_of((literals.len() - 257) as u64, 5) + bits_of((distances.len() - 1) as u64, 5) + bits_of(
        (count - 4) as u64,
        4,
    ) + order_bits(lengths, count, 0) + stream_bits(codes, literal_stream) + stream_bits(
        codes,
        distance_stream,
    )
}

/// The codes of the bytes of `chunk`, one after the other.
pub open spec fn payload_bits(codes: Seq<PrefixCode>, chunk: Seq<u8>) -> Seq<bool>
    decreases chunk.len(),
{
    if chunk.len() == 0 {
        Seq::empty()
    } else {
        payload_bits(codes, chunk.drop_last()) + codes[chunk.last() as int].bits()
    }
}

/// The lengths of the literal/length codes of a block.
pub open spec fn block_lengths(chunk: Seq<u8>) -> Seq<u8> {
    limited_lengths(literal_freqs(chunk), 15)
}

/// The lengths of the distance codes of a block: one symbol, without a code.
pub open spec fn distance_lengths() -> Seq<u8> {
    limited_lengths(seq![0u32], 15)
}

/// The block that holds `chunk`: the final-block bit and the block type 2,
/// the header, the payload and the end-of-block symbol.
pub open spec fn block_bits(chunk: Seq<u8>, last: bool) -> Seq<bool> {
    let lengths = block_lengths(chunk);
    let codes = canonical_codes(lengths);
    bits_of(if last { 5 } else { 4 }, 3) + header_bits(lengths, distance_lengths()) + payload_bits(
        codes,
        chunk,
    ) + codes[256].bits()
}

/// The blocks that hold `data`: each but the last holds `block_size` bytes.
pub open spec fn stream_of(data: Seq<u8>, block_size: nat) -> Seq<bool>
    decreases data.len(),
{
    if block_size == 0 || data.len() <= block_size {
        block_bits(data, true)
    } else {
        block_bits(data.take(block_size as int), false) + stream_of(
            data.skip(block_size as int),
            block_size,
        )
    }
}

/// The bytes that hold `bits`, the last one filled up with clear bits.
pub open spec fn pack(bits: Seq<bool>) -> Seq<u8> {
    let padded = bits + zeros(((8 - bits.len() % 8) % 8) as nat);
    Seq::new((bits.len() + 7) / 8, |k: int| value_of(padded.subrange(8 * k, 8 * k + 8)) as u8)
}

/// The compressed form of `data`.
pub open spec fn spec_compress(data: Seq<u8>, block_size: nat) -> Seq<u8> {
    pack(stream_of(data, block_size))
}

/// Bytes are what their bits pack to.
pub proof fn lemma_pack_bytes(bytes: Seq<u8>, bits: Seq<bool>)
    requires
        bytes_bits(bytes) == bits + zeros(((8 - bits.len() % 8) % 8) as nat),
    ensures
        bytes == pack(bits),
{
    let padded = bits + zeros(((8 - bits.len() % 8) % 8) as nat);
    assert(padded.len() == 8 * bytes.len());
    assert forall|k: int| 0 <= k < bytes.len() implies bytes[k] == pack(bits)[k] by {
        let b = bytes[k];
        let part = padded.subrange(8 * k, 8 * k + 8);
        assert(part =~= bits_of(b as u64, 8)) by {
            assert forall|j: int| 0 <= j < 8 implies part[j] == bits_of(b as u64, 8)[j] by {
                assert(padded[8 * k + j] == bytes_bits(bytes)[8 * k + j]);
                assert((8 * k + j) / 8 == k && (8 * k + j) % 8 == j);
            }
        }
        vstd::arithmetic::power2::lemma2_to64();
        crate::bits::lemma_value_of_bits(b as u64, 8);
    }
    assert(bytes =~= pack(bits));
}

} // verus!
