//! Compressing bytes into a stream of DEFLATE blocks and back.
//!
//! The encoder writes dynamic-Huffman blocks of literals only, each with the
//! end-of-block symbol; it looks for no repetitions. The decoder reads such
//! blocks: it takes every header that declares prefix codes, and turns down
//! blocks of another type and length codes in the payload.

use vstd::prelude::*;
use vstd::arithmetic::power2::{pow2, lemma2_to64};
use crate::bitio::{BitReader, BitWriter};
use crate::bits::{bits_of, bytes_bits, lemma_single_bit, lemma_fits_pow2, lemma_value_of_bits};
pub use crate::format::DeflateError;
use crate::format::{
    END_OF_BLOCK, NUM_LITERAL_SYMBOLS, NUM_DISTANCE_SYMBOLS, NUM_LENGTH_SYMBOLS, MAX_CODE_LENGTH,
    MAX_LENGTH_CODE_LENGTH, length_order, canonical_codes, field, matches_at, decode_symbol,
    repeat_of, parse_lengths, order_lengths, parse_header, parse_payload, parse_block, parse_stream,
    spec_decompress, lemma_decode_eof, lemma_decode_bad, lemma_decode_leaf, lemma_decode_inner,
    lemma_match_unique,
};
use crate::canonical::lemma_canonical_padded;
use crate::huffman::{HuffmanTable, HuffmanTree, PrefixCode, code_lengths, canonical};
use crate::tree::{prefix_free, is_inner_path, starts_with, total_length, lemma_fits_by_length};
use crate::package_merge::{spec_package_merge, byte_values, PackageMergeError};
use crate::package_merge_proofs::lemma_package_merge_kraft;
use crate::kraft::kraft_holds;
use crate::stream::{
    occurrences, literal_freqs, limited_lengths, repeats, rle_symbols, table_symbols, item_len,
    arg_bits, valid_stream, symbol_count, length_freqs, stream_bits, trimmed_count, order_bits,
    header_bits, payload_bits, block_lengths, distance_lengths, block_bits, stream_of,
    spec_compress, lemma_pack_bytes,
};

verus! {

/// How the encoder cuts its input into blocks.
pub struct DeflateOptions {
    /// The greatest number of bytes of a block.
    pub block_size: usize,
}

impl Default for DeflateOptions {
    fn default() -> (r: Self)
        ensures
            r.block_size == 16384,
    {
        DeflateOptions { block_size: 16384 }
    }
}

/// The symbol at place `i` of the order in which code-length code lengths
/// are written.
fn length_order_at(i: usize) -> (r: usize)
    requires
        i < 19,
    ensures
        r == length_order()[i as int],
        r < 19,
{
    if i == 0 {
        16
    } else if i == 1 {
        17
    } else if i == 2 {
        18
    } else if i == 3 {
        0
    } else if i % 2 == 0 {
        8 + (i - 4) / 2
    } else {
        7 - (i - 5) / 2
    }
}

/// Reads a field of `width` bits.
fn read_field(reader: &mut BitReader<'_>, width: usize) -> (r: Result<u64, DeflateError>)
    requires
        width < 64,
    ensures
        final(reader).source() == old(reader).source(),
        final(reader).consumed() <= 8 * final(reader).source().len(),
        old(reader).consumed() <= 8 * old(reader).source().len(),
        match field(bytes_bits(old(reader).source()), old(reader).consumed(), width as nat) {
            Some(v) => r == Ok::<u64, DeflateError>(v as u64) && v < pow2(width as nat)
                && final(reader).consumed() == old(reader).consumed() + width,
            None => r == Err::<u64, DeflateError>(DeflateError::UnexpectedEof)
                && final(reader).consumed() == old(reader).consumed(),
        },
{
    let ghost all = bytes_bits(reader.source());
    let ghost at = reader.consumed();
    match reader.read_bits(width) {
        Ok(v) => {
            proof {
                assert(all.skip(at as int).take(width as int) =~= all.subrange(
                    at as int,
                    (at + width) as int,
                ));
            }
            Ok(v)
        },
        Err(_) => Err(DeflateError::UnexpectedEof),
    }
}

/// Reads the symbol whose code comes next, walking the tree of the codes bit
/// by bit.
fn read_symbol(
    reader: &mut BitReader<'_>,
    tree: &HuffmanTree,
    Ghost(codes): Ghost<Seq<PrefixCode>>,
) -> (r: Result<usize, DeflateError>)
    requires
        tree.decodes(codes),
        prefix_free(codes),
        forall|s: int| 0 <= s < codes.len() ==> (#[trigger] codes[s]).length <= 31,
        old(reader).consumed() <= 8 * old(reader).source().len(),
    ensures
        final(reader).source() == old(reader).source(),
        final(reader).consumed() <= 8 * final(reader).source().len(),
        match decode_symbol(codes, bytes_bits(old(reader).source()), old(reader).consumed()) {
            Ok((s, next)) => r == Ok::<usize, DeflateError>(s as usize) && final(reader).consumed()
                == next && s < codes.len() && codes[s as int].length > 0 && old(reader).consumed()
                < next,
            Err(e) => r == Err::<usize, DeflateError>(e),
        },
{
    let ghost all = bytes_bits(reader.source());
    let ghost at = reader.consumed();
    let mut iter = tree.create_walk_iter();
    proof {
        assert(all.subrange(at as int, at as int) =~= Seq::<bool>::empty());
    }
    loop
        invariant
            reader.source() == old(reader).source(),
            all == bytes_bits(reader.source()),
            at == old(reader).consumed(),
            reader.consumed() == at + iter.code.length,
            reader.consumed() <= all.len(),
            tree.decodes(codes),
            prefix_free(codes),
            forall|s: int| 0 <= s < codes.len() ==> (#[trigger] codes[s]).length <= 31,
            iter.code.length < 31,
            iter.idx < tree.size(),
            tree.descend(all.subrange(at as int, at + iter.code.length)) == Some(iter.idx as int),
            iter.code.length == 0 || iter.idx >= tree.symbols(),
        decreases 32 - iter.code.length,
    {
        let ghost k = iter.code.length as nat;
        let bit = match read_field(reader, 1) {
            Ok(v) => {
                proof {
                    lemma2_to64();
                    lemma_single_bit(v);
                    let one = all.subrange((at + k) as int, (at + k + 1) as int);
                    lemma_fits_pow2(v, 1);
                    crate::bits::lemma_bits_of_value(one, v);
                    assert(one[0] == all[(at + k) as int]);
                }
                v != 0
            },
            Err(e) => {
                proof {
                    lemma_decode_eof(*tree, codes, all, at, k);
                }
                return Err(e);
            },
        };
        match tree.walk(iter, bit) {
            None => {
                proof {
                    lemma_decode_bad(*tree, codes, all, at, k);
                }
                return Err(DeflateError::MalformedHeader);
            },
            Some(next) => {
                if next.leaf {
                    proof {
                        lemma_decode_leaf(*tree, codes, all, at, k, next.idx as int);
                    }
                    return Ok(next.idx);
                }
                proof {
                    lemma_decode_inner(*tree, codes, all, at, k, next.idx as int, 31);
                }
                iter = next;
            },
        }
    }
}

/// The canonical codes of a table are those of its lengths.
pub proof fn lemma_canonical_codes(codes: Seq<PrefixCode>)
    requires
        canonical(codes),
    ensures
        codes == canonical_codes(code_lengths(codes)),
{
    let lengths = code_lengths(codes);
    let made = canonical_codes(lengths);
    assert forall|s: int| 0 <= s < codes.len() implies codes[s] == made[s] by {
        let c = codes[s];
        assert(c.well_formed());
        assert(lengths[s] == c.length);
        lemma_fits_pow2(c.code as u64, c.length as nat);
        lemma_value_of_bits(c.code as u64, c.length as nat);
    }
    assert(codes =~= made);
}

/// The lengths with as many symbols without a code added as make room in
/// the tree for every code.
spec fn padded_lengths(lengths: Seq<u8>, size: nat) -> Seq<u8> {
    Seq::new(size, |s: int| if s < lengths.len() { lengths[s] } else { 0u8 })
}

proof fn lemma_padded_total(lengths: Seq<u8>, size: nat, n: nat)
    requires
        lengths.len() <= size,
        n <= size,
    ensures
        total_length(canonical_codes(padded_lengths(lengths, size)), n) == total_length(
            canonical_codes(lengths),
            if n <= lengths.len() { n } else { lengths.len() },
        ),
    decreases n,
{
    if n > 0 {
        lemma_padded_total(lengths, size, (n - 1) as nat);
    }
}

/// Symbols without a code change nothing for decoding.
proof fn lemma_padded_codes(lengths: Seq<u8>, size: nat)
    requires
        lengths.len() <= size,
    ensures
        forall|s: int|
            0 <= s < lengths.len() ==> #[trigger] canonical_codes(padded_lengths(lengths, size))[s]
                == canonical_codes(lengths)[s],
        forall|s: int|
            lengths.len() <= s < size ==> (#[trigger] canonical_codes(
                padded_lengths(lengths, size),
            )[s]).length == 0,
        prefix_free(canonical_codes(padded_lengths(lengths, size))) == prefix_free(
            canonical_codes(lengths),
        ),
{
    let padded = padded_lengths(lengths, size);
    let wide = canonical_codes(padded);
    let codes = canonical_codes(lengths);
    assert forall|s: int| 0 <= s < lengths.len() implies #[trigger] wide[s] == codes[s] by {
        lemma_canonical_padded(lengths, padded, s);
    }
    if prefix_free(codes) {
        assert forall|a: int, b: int|
            0 <= a < wide.len() && 0 <= b < wide.len() && a != b && (#[trigger] wide[a]).length > 0
                && (#[trigger] wide[b]).length > 0 implies !starts_with(
            wide[b].bits(),
            wide[a].bits(),
        ) by {
            assert(wide[a] == codes[a] && wide[b] == codes[b]);
        }
    }
    if prefix_free(wide) {
        assert forall|a: int, b: int|
            0 <= a < codes.len() && 0 <= b < codes.len() && a != b && (#[trigger] codes[a]).length
                > 0 && (#[trigger] codes[b]).length > 0 implies !starts_with(
            codes[b].bits(),
            codes[a].bits(),
        ) by {
            assert(wide[a] == codes[a] && wide[b] == codes[b]);
        }
    }
}

/// With symbols without a code added, the same symbol is decoded everywhere.
proof fn lemma_padded_decode(lengths: Seq<u8>, size: nat, bits: Seq<bool>, at: nat)
    requires
        lengths.len() <= size,
        prefix_free(canonical_codes(lengths)),
    ensures
        decode_symbol(canonical_codes(padded_lengths(lengths, size)), bits, at) == decode_symbol(
            canonical_codes(lengths),
            bits,
            at,
        ),
{
    reveal(decode_symbol);
    let wide = canonical_codes(padded_lengths(lengths, size));
    let codes = canonical_codes(lengths);
    lemma_padded_codes(lengths, size);
    assert forall|s: int| matches_at(wide, bits, at, s) == matches_at(codes, bits, at, s) by {
        if 0 <= s < lengths.len() {
            assert(wide[s] == codes[s]);
        } else if 0 <= s < size {
            assert(wide[s].length == 0);
        }
    }
    if exists|s: int| matches_at(codes, bits, at, s) {
        let a = choose|s: int| matches_at(codes, bits, at, s);
        assert(matches_at(wide, bits, at, a));
        let b = choose|s: int| matches_at(wide, bits, at, s);
        assert(matches_at(codes, bits, at, b));
        lemma_match_unique(codes, bits, at, a, b);
    } else {
        assert forall|s: int| !matches_at(wide, bits, at, s) by {
            assert(!matches_at(codes, bits, at, s));
        }
        let rest = bits.skip(at as int);
        if is_inner_path(codes, rest) {
            let s = choose|s: int|
                0 <= s < codes.len() && rest.len() < (#[trigger] codes[s]).length
                    && codes[s].bits().take(rest.len() as int) == rest;
            assert(wide[s] == codes[s]);
            assert(is_inner_path(wide, rest));
        }
        if is_inner_path(wide, rest) {
            let s = choose|s: int|
                0 <= s < wide.len() && rest.len() < (#[trigger] wide[s]).length
                    && wide[s].bits().take(rest.len() as int) == rest;
            assert(s < lengths.len());
            assert(wide[s] == codes[s]);
            assert(is_inner_path(codes, rest));
        }
    }
}

/// A tree with the codes that it decodes.
struct Decoder {
    tree: HuffmanTree,
    codes: Ghost<Seq<PrefixCode>>,
}

/// The tree that decodes the canonical codes of `lengths`, if none of them
/// starts another. The tree is given symbols enough to have room for
/// whatever inner nodes the codes need.
fn decoding_tree(lengths: &Vec<u8>) -> (r: Option<Decoder>)
    requires
        1 <= lengths@.len() <= 286,
        forall|s: int| 0 <= s < lengths@.len() ==> #[trigger] lengths@[s] <= 15,
    ensures
        r is Some <==> prefix_free(canonical_codes(lengths@)),
        r is Some ==> ({
            let tree = r->0.tree;
            let wide = r->0.codes@;
            &&& tree.decodes(wide)
            &&& prefix_free(wide)
            &&& wide.len() >= lengths@.len()
            &&& (forall|s: int| 0 <= s < wide.len() ==> (#[trigger] wide[s]).length <= 31)
            &&& (forall|s: int| lengths@.len() <= s < wide.len() ==> (#[trigger] wide[s]).length == 0)
            &&& (forall|bits: Seq<bool>, at: nat| #[trigger]
                decode_symbol(wide, bits, at) == decode_symbol(
                    canonical_codes(lengths@),
                    bits,
                    at,
                ))
        }),
{
    let n = lengths.len();
    let ghost codes = canonical_codes(lengths@);
    let mut total: usize = 0;
    let mut s: usize = 0;
    while s < n
        invariant
            s <= n == lengths@.len(),
            n <= 286,
            forall|x: int| 0 <= x < lengths@.len() ==> #[trigger] lengths@[x] <= 15,
            total == total_length(canonical_codes(lengths@), s as nat),
            total <= 15 * s,
        decreases n - s,
    {
        total = total + lengths[s] as usize;
        s += 1;
    }
    let size = if total + 1 > n { total + 1 } else { n };
    let mut padded: Vec<u8> = Vec::new();
    let mut s: usize = 0;
    while s < size
        invariant
            s <= size,
            n == lengths@.len(),
            n <= size,
            padded@.len() == s,
            forall|x: int| 0 <= x < s ==> padded@[x] == (if x < n { lengths@[x] } else { 0u8 }),
        decreases size - s,
    {
        padded.push(if s < n { lengths[s] } else { 0 });
        s += 1;
    }
    proof {
        assert(padded@ =~= padded_lengths(lengths@, size as nat));
        assert forall|x: int| 0 <= x < padded@.len() implies #[trigger] padded@[x] <= 31 by {
            if x < n {
                assert(lengths@[x] <= 15);
            }
        }
    }
    let table = HuffmanTable::from_lengths(padded.as_slice());
    let ghost wide = table.codes@;
    proof {
        lemma_canonical_codes(wide);
        assert(wide == canonical_codes(padded@));
        lemma_padded_total(lengths@, size as nat, size as nat);
        lemma_fits_by_length(wide);
        lemma_padded_codes(lengths@, size as nat);
    }
    match HuffmanTree::from(&table) {
        None => None,
        Some(tree) => {
            proof {
                assert forall|x: int| 0 <= x < wide.len() implies (#[trigger] wide[x]).length
                    <= 31 by {
                    assert(wide[x].length == padded@[x]);
                }
                assert forall|bits: Seq<bool>, at: nat| #[trigger]
                    decode_symbol(wide, bits, at) == decode_symbol(codes, bits, at) by {
                    lemma_padded_decode(lengths@, size as nat, bits, at);
                }
            }
            Some(Decoder { tree, codes: Ghost(wide) })
        },
    }
}

/// Reads `count` code lengths written with the code-length code.
fn read_lengths(
    reader: &mut BitReader<'_>,
    tree: &HuffmanTree,
    Ghost(wide): Ghost<Seq<PrefixCode>>,
    Ghost(codes): Ghost<Seq<PrefixCode>>,
    count: usize,
) -> (r: Result<Vec<u8>, DeflateError>)
    requires
        tree.decodes(wide),
        prefix_free(wide),
        forall|s: int| 0 <= s < wide.len() ==> (#[trigger] wide[s]).length <= 31,
        forall|s: int| 19 <= s < wide.len() ==> (#[trigger] wide[s]).length == 0,
        forall|bits: Seq<bool>, at: nat| #[trigger]
            decode_symbol(wide, bits, at) == decode_symbol(codes, bits, at),
        count <= 286,
        old(reader).consumed() <= 8 * old(reader).source().len(),
    ensures
        final(reader).source() == old(reader).source(),
        final(reader).consumed() <= 8 * final(reader).source().len(),
        match parse_lengths(
            codes,
            bytes_bits(old(reader).source()),
            old(reader).consumed(),
            count as nat,
            Seq::empty(),
        ) {
            Ok((lengths, end)) => r is Ok && r->Ok_0@ == lengths && final(reader).consumed() == end
                && lengths.len() == count && old(reader).consumed() <= end && (forall|s: int|
                0 <= s < lengths.len() ==> #[trigger] lengths[s] <= 15),
            Err(e) => r == Err::<Vec<u8>, DeflateError>(e),
        },
{
    let ghost all = bytes_bits(reader.source());
    let ghost start = reader.consumed();
    let mut lengths: Vec<u8> = Vec::new();
    while lengths.len() < count
        invariant
            reader.source() == old(reader).source(),
            all == bytes_bits(reader.source()),
            start == old(reader).consumed(),
            start <= reader.consumed(),
            tree.decodes(wide),
            prefix_free(wide),
            forall|s: int| 0 <= s < wide.len() ==> (#[trigger] wide[s]).length <= 31,
            forall|s: int| 19 <= s < wide.len() ==> (#[trigger] wide[s]).length == 0,
            forall|bits: Seq<bool>, at: nat| #[trigger]
                decode_symbol(wide, bits, at) == decode_symbol(codes, bits, at),
            count <= 286,
            lengths@.len() <= count,
            forall|s: int| 0 <= s < lengths@.len() ==> #[trigger] lengths@[s] <= 15,
            parse_lengths(codes, all, start, count as nat, Seq::empty()) == parse_lengths(
                codes,
                all,
                reader.consumed(),
                count as nat,
                lengths@,
            ),
            reader.consumed() <= all.len(),
        decreases count - lengths@.len(),
    {
        let ghost at = reader.consumed();
        let ghost acc = lengths@;
        let symbol = match read_symbol(reader, tree, Ghost(wide)) {
            Ok(symbol) => symbol,
            Err(e) => {
                return Err(e);
            },
        };
        let ghost next = reader.consumed();
        proof {
            let found = decode_symbol(wide, all, at);
            assert(found == decode_symbol(codes, all, at));
            assert(symbol < 19);
            lemma2_to64();
        }
        if symbol <= 15 {
            lengths.push(symbol as u8);
            proof {
                assert(parse_lengths(codes, all, at, count as nat, acc) == parse_lengths(
                    codes,
                    all,
                    next,
                    count as nat,
                    acc.push(symbol as u8),
                ));
            }
        } else {
            if symbol == 16 && lengths.len() == 0 {
                return Err(DeflateError::MalformedHeader);
            }
            let width: usize = if symbol == 16 { 2 } else if symbol == 17 { 3 } else { 7 };
            let least: usize = if symbol == 18 { 11 } else { 3 };
            let value: u8 = if symbol == 16 { lengths[lengths.len() - 1] } else { 0 };
            let arg = match read_field(reader, width) {
                Ok(arg) => arg as usize,
                Err(e) => {
                    return Err(e);
                },
            };
            let times = arg + least;
            if lengths.len() + times > count {
                return Err(DeflateError::MalformedHeader);
            }
            proof {
                assert(parse_lengths(codes, all, at, count as nat, acc) == parse_lengths(
                    codes,
                    all,
                    (next + width) as nat,
                    count as nat,
                    acc + repeat_of(value, times as nat),
                ));
            }
            let mut k: usize = 0;
            while k < times
                invariant
                    k <= times,
                    lengths@ == acc + repeat_of(value, k as nat),
                    value <= 15,
                    forall|s: int| 0 <= s < acc.len() ==> #[trigger] acc[s] <= 15,
                    forall|s: int| 0 <= s < lengths@.len() ==> #[trigger] lengths@[s] <= 15,
                decreases times - k,
            {
                lengths.push(value);
                proof {
                    assert(lengths@ =~= acc + repeat_of(value, (k + 1) as nat));
                }
                k += 1;
            }
        }
    }
    Ok(lengths)
}

/// Reads a block's header and gives the canonical codes of the literal/length
/// alphabet that it declares.
pub fn read_huffman_table(reader: &mut BitReader<'_>) -> (r: Result<HuffmanTable, DeflateError>)
    ensures
        final(reader).source() == old(reader).source(),
        final(reader).consumed() <= 8 * final(reader).source().len(),
        match parse_header(bytes_bits(old(reader).source()), old(reader).consumed()) {
            Ok((lengths, end)) => r is Ok && r->Ok_0.codes@ == canonical_codes(lengths)
                && final(reader).consumed() == end && 257 <= lengths.len() <= 286
                && old(reader).consumed() <= end
                && (forall|s: int| 0 <= s < lengths.len() ==> #[trigger] lengths[s] <= 15),
            Err(e) => r == Err::<HuffmanTable, DeflateError>(e),
        },
{
    let ghost all = bytes_bits(reader.source());
    let ghost at = reader.consumed();
    proof {
        lemma2_to64();
    }
    let num_literals = match read_field(reader, 5) {
        Ok(v) => v as usize + 257,
        Err(e) => {
            return Err(e);
        },
    };
    let num_distance_codes = match read_field(reader, 5) {
        Ok(v) => v as usize + 1,
        Err(e) => {
            return Err(e);
        },
    };
    let num_code_length_codes = match read_field(reader, 4) {
        Ok(v) => v as usize + 4,
        Err(e) => {
            return Err(e);
        },
    };
    if num_literals > NUM_LITERAL_SYMBOLS || num_distance_codes > NUM_DISTANCE_SYMBOLS {
        return Err(DeflateError::MalformedHeader);
    }
    // The lengths of the code-length codes.
    let mut lengths: Vec<u8> = Vec::new();
    let mut k: usize = 0;
    while k < NUM_LENGTH_SYMBOLS
        invariant
            k <= 19,
            lengths@ == repeat_of(0, k as nat),
        decreases 19 - k,
    {
        lengths.push(0);
        proof {
            assert(lengths@ =~= repeat_of(0, (k + 1) as nat));
        }
        k += 1;
    }
    let ghost from = (at + 14) as nat;
    let ghost count = num_code_length_codes as nat;
    let mut idx: usize = 0;
    while idx < num_code_length_codes
        invariant
            idx <= num_code_length_codes == count,
            count <= 19,
            at == old(reader).consumed(),
            at + 14 <= all.len(),
            num_literals == field(all, at, 5)->0 + 257,
            num_distance_codes == field(all, (at + 5) as nat, 5)->0 + 1,
            count == field(all, (at + 10) as nat, 4)->0 + 4,
            num_literals <= 286,
            num_distance_codes <= 30,
            reader.source() == old(reader).source(),
            all == bytes_bits(reader.source()),
            from == at + 14,
            reader.consumed() == from + 3 * idx,
            reader.consumed() <= all.len(),
            lengths@.len() == 19,
            forall|s: int| 0 <= s < 19 ==> #[trigger] lengths@[s] <= 7,
            from + 3 * count <= all.len() ==> order_lengths(
                all,
                from,
                count,
                0,
                repeat_of(0, 19),
            ) == order_lengths(all, from, count, idx as nat, lengths@),
        decreases num_code_length_codes - idx,
    {
        let ghost before = lengths@;
        proof {
            lemma2_to64();
        }
        let v = match read_field(reader, 3) {
            Ok(v) => v,
            Err(e) => {
                return Err(e);
            },
        };
        lengths[length_order_at(idx)] = v as u8;
        proof {
            if from + 3 * count <= all.len() {
                assert(order_lengths(all, from, count, idx as nat, before) == order_lengths(
                    all,
                    from,
                    count,
                    (idx + 1) as nat,
                    lengths@,
                ));
            }
        }
        idx += 1;
    }
    let decoder = match decoding_tree(&lengths) {
        Some(made) => made,
        None => {
            return Err(DeflateError::MalformedHeader);
        },
    };
    let length_tree = decoder.tree;
    let ghost wide = decoder.codes@;
    let ghost length_codes = canonical_codes(lengths@);
    // The lengths of the two alphabets.
    let literal_lengths = match read_lengths(
        reader,
        &length_tree,
        Ghost(wide),
        Ghost(length_codes),
        num_literals,
    ) {
        Ok(found) => found,
        Err(e) => {
            return Err(e);
        },
    };
    match read_lengths(reader, &length_tree, Ghost(wide), Ghost(length_codes), num_distance_codes) {
        Ok(_) => {},
        Err(e) => {
            return Err(e);
        },
    }
    proof {
        assert forall|s: int| 0 <= s < literal_lengths@.len() implies #[trigger] literal_lengths@[s]
            <= 31 by {
            assert(literal_lengths@[s] <= 15);
        }
    }
    let table = HuffmanTable::from_lengths(literal_lengths.as_slice());
    proof {
        lemma_canonical_codes(table.codes@);
    }
    Ok(table)
}

/// The lengths of the codes of a table.
fn table_lengths(table: &HuffmanTable) -> (lengths: Vec<u8>)
    ensures
        lengths@ == code_lengths(table.codes@),
{
    let mut lengths: Vec<u8> = Vec::new();
    let mut s: usize = 0;
    while s < table.codes.len()
        invariant
            s <= table.codes@.len(),
            lengths@.len() == s,
            forall|x: int| 0 <= x < s ==> lengths@[x] == table.codes@[x].length,
        decreases table.codes.len() - s,
    {
        lengths.push(table.codes[s].length);
        s += 1;
    }
    proof {
        assert(lengths@ =~= code_lengths(table.codes@));
    }
    lengths
}

/// Reads literals up to the end-of-block symbol and appends them to `out`.
fn read_payload(
    reader: &mut BitReader<'_>,
    tree: &HuffmanTree,
    Ghost(wide): Ghost<Seq<PrefixCode>>,
    Ghost(codes): Ghost<Seq<PrefixCode>>,
    out: &mut Vec<u8>,
) -> (r: Result<(), DeflateError>)
    requires
        tree.decodes(wide),
        prefix_free(wide),
        forall|s: int| 0 <= s < wide.len() ==> (#[trigger] wide[s]).length <= 31,
        forall|s: int| 286 <= s < wide.len() ==> (#[trigger] wide[s]).length == 0,
        forall|bits: Seq<bool>, at: nat| #[trigger]
            decode_symbol(wide, bits, at) == decode_symbol(codes, bits, at),
        old(reader).consumed() <= 8 * old(reader).source().len(),
    ensures
        final(reader).source() == old(reader).source(),
        final(reader).consumed() <= 8 * final(reader).source().len(),
        match parse_payload(
            codes,
            bytes_bits(old(reader).source()),
            old(reader).consumed(),
            Seq::empty(),
        ) {
            Ok((data, end)) => r is Ok && final(out)@ == old(out)@ + data && final(reader).consumed()
                == end && old(reader).consumed() < end,
            Err(e) => r == Err::<(), DeflateError>(e),
        },
{
    let ghost all = bytes_bits(reader.source());
    let ghost start = reader.consumed();
    let ghost before = out@;
    proof {
        assert(out@.skip(before.len() as int) =~= Seq::<u8>::empty());
        assert(out@.take(before.len() as int) =~= before);
    }
    loop
        invariant
            reader.source() == old(reader).source(),
            all == bytes_bits(reader.source()),
            start == old(reader).consumed(),
            tree.decodes(wide),
            prefix_free(wide),
            forall|s: int| 0 <= s < wide.len() ==> (#[trigger] wide[s]).length <= 31,
            forall|s: int| 286 <= s < wide.len() ==> (#[trigger] wide[s]).length == 0,
            forall|bits: Seq<bool>, at: nat| #[trigger]
                decode_symbol(wide, bits, at) == decode_symbol(codes, bits, at),
            before == old(out)@,
            start <= reader.consumed() <= all.len(),
            parse_payload(codes, all, start, Seq::empty()) == parse_payload(
                codes,
                all,
                reader.consumed(),
                out@.skip(before.len() as int),
            ),
            out@.take(before.len() as int) == before,
            out@.len() >= before.len(),
        decreases all.len() - reader.consumed(),
    {
        let ghost here = reader.consumed();
        let ghost acc = out@.skip(before.len() as int);
        let symbol = match read_symbol(reader, tree, Ghost(wide)) {
            Ok(symbol) => symbol,
            Err(e) => {
                proof {
                    assert(decode_symbol(wide, all, here) == decode_symbol(codes, all, here));
                }
                return Err(e);
            },
        };
        let ghost next = reader.consumed();
        proof {
            let found = decode_symbol(wide, all, here);
            assert(found == decode_symbol(codes, all, here));
            assert(found == Ok::<(nat, nat), DeflateError>((symbol as nat, next)));
            assert(symbol < 286);
        }
        if symbol == END_OF_BLOCK {
            proof {
                assert(out@ =~= before + acc);
            }
            return Ok(());
        }
        if symbol > END_OF_BLOCK {
            return Err(DeflateError::Unsupported);
        }
        out.push(symbol as u8);
        proof {
            assert(out@.skip(before.len() as int) =~= acc.push(symbol as u8));
            assert(out@.take(before.len() as int) =~= before);
        }
    }
}

/// Reads one block and appends its literals to `out`. Says whether the block
/// was the last.
pub fn decompress_block(reader: &mut BitReader<'_>, out: &mut Vec<u8>) -> (r: Result<
    bool,
    DeflateError,
>)
    ensures
        final(reader).source() == old(reader).source(),
        final(reader).consumed() <= 8 * final(reader).source().len(),
        match parse_block(bytes_bits(old(reader).source()), old(reader).consumed()) {
            Ok((data, last, end)) => r == Ok::<bool, DeflateError>(last) && final(out)@ == old(out)@
                + data && final(reader).consumed() == end && old(reader).consumed() < end,
            Err(e) => r == Err::<bool, DeflateError>(e),
        },
{
    let ghost all = bytes_bits(reader.source());
    let ghost at = reader.consumed();
    proof {
        lemma2_to64();
    }
    let bfinal = match read_field(reader, 1) {
        Ok(v) => v,
        Err(e) => {
            return Err(e);
        },
    };
    let btype = match read_field(reader, 2) {
        Ok(v) => v,
        Err(e) => {
            return Err(e);
        },
    };
    if btype != 2 {
        return Err(DeflateError::MalformedHeader);
    }
    let table = match read_huffman_table(reader) {
        Ok(table) => table,
        Err(e) => {
            return Err(e);
        },
    };
    let ghost codes = table.codes@;
    let lengths = table_lengths(&table);
    let ghost header = parse_header(all, (at + 3) as nat)->Ok_0;
    let ghost given = header.0;
    proof {
        assert(lengths@ =~= given) by {
            assert forall|x: int| 0 <= x < given.len() implies lengths@[x] == given[x] by {
                assert(canonical_codes(given)[x].length == given[x]);
            }
        }
    }
    let decoder = match decoding_tree(&lengths) {
        Some(made) => made,
        None => {
            return Err(DeflateError::MalformedHeader);
        },
    };
    let tree = decoder.tree;
    let ghost wide = decoder.codes@;
    match read_payload(reader, &tree, Ghost(wide), Ghost(codes), out) {
        Ok(()) => Ok(bfinal != 0),
        Err(e) => Err(e),
    }
}

/// Decodes the stream of blocks at the start of `input`. Gives the bytes
/// that it holds and the number of bytes of `input` that it takes up: what
/// follows the last block starts on the next whole byte.
pub fn decompress(input: &[u8]) -> (r: Result<(Vec<u8>, usize), DeflateError>)
    ensures
        match spec_decompress(input@) {
            Ok((data, used)) => match r {
                Ok(found) => found.0@ == data && found.1 == used && used <= input@.len(),
                Err(_) => false,
            },
            Err(e) => r == Err::<(Vec<u8>, usize), DeflateError>(e),
        },
{
    let mut bit_reader = BitReader::new(input);
    let mut out: Vec<u8> = Vec::new();
    let ghost all = bytes_bits(input@);
    let mut done = false;
    while !done
        invariant
            bit_reader.source() == input@,
            all == bytes_bits(input@),
            bit_reader.consumed() <= all.len(),
            !done ==> parse_stream(all, 0, Seq::empty()) == parse_stream(
                all,
                bit_reader.consumed(),
                out@,
            ),
            done ==> parse_stream(all, 0, Seq::empty()) == Ok::<(Seq<u8>, nat), DeflateError>(
                (out@, bit_reader.consumed()),
            ),
        decreases all.len() - bit_reader.consumed(), !done as int,
    {
        let ghost at = bit_reader.consumed();
        let ghost acc = out@;
        let bfinal = match decompress_block(&mut bit_reader, &mut out) {
            Ok(last) => last,
            Err(e) => {
                proof {
                    assert(parse_stream(all, at, acc) == Err::<(Seq<u8>, nat), DeflateError>(e));
                }
                return Err(e);
            },
        };
        proof {
            if bfinal {
                assert(parse_stream(all, at, acc) == Ok::<(Seq<u8>, nat), DeflateError>(
                    (out@, bit_reader.consumed()),
                ));
            } else {
                assert(parse_stream(all, at, acc) == parse_stream(
                    all,
                    bit_reader.consumed(),
                    out@,
                ));
            }
        }
        done = bfinal;
    }
    bit_reader.put_back_extra();
    let used = bit_reader.position();
    Ok((out, used))
}

// ---------------------------------------------------------------------------
// Encoding

/// What the encoder keeps of the block it is writing.
pub struct Block {
    symbols: Vec<u16>,
    literal_freqs: Vec<u32>,
    distance_freqs: Vec<u32>,
}

/// How many codes of each alphabet a block declares.
pub struct BlockCompressionInfo {
    pub num_literal_codes: usize,
    pub num_distance_codes: usize,
}

impl Default for Block {
    fn default() -> (r: Self)
        ensures
            r.symbols() == Seq::<u16>::empty(),
    {
        Block { symbols: Vec::new(), literal_freqs: Vec::new(), distance_freqs: Vec::new() }
    }
}

impl Block {
    /// The symbols of the block's payload, the end-of-block symbol aside.
    pub closed spec fn symbols(self) -> Seq<u16> {
        self.symbols@
    }

    /// How often each literal/length symbol occurs in the block.
    pub closed spec fn literal_freqs(self) -> Seq<u32> {
        self.literal_freqs@
    }

    /// How often each distance symbol occurs in the block.
    pub closed spec fn distance_freqs(self) -> Seq<u32> {
        self.distance_freqs@
    }
}

/// `count` counters at 0.
fn zero_counters(count: usize) -> (r: Vec<u32>)
    ensures
        r@.len() == count,
        forall|k: int| 0 <= k < count ==> r@[k] == 0,
{
    let mut r: Vec<u32> = Vec::new();
    let mut k: usize = 0;
    while k < count
        invariant
            k <= count,
            r@.len() == k,
            forall|x: int| 0 <= x < k ==> r@[x] == 0,
        decreases count - k,
    {
        r.push(0);
        k += 1;
    }
    r
}

/// Whether the input ends at `position`.
fn is_end_of_file(input: &[u8], position: usize) -> (r: bool)
    ensures
        r == (position >= input@.len()),
{
    position >= input.len()
}

/// Fills `block` with the symbols of `chunk` and their frequencies, the
/// end-of-block symbol counted once.
pub fn compress_block_gen_symbols(chunk: &[u8], block: &mut Block) -> (info: BlockCompressionInfo)
    requires
        1 <= chunk@.len() <= u32::MAX,
    ensures
        info.num_literal_codes == 257,
        info.num_distance_codes == 1,
        final(block).symbols() == Seq::new(chunk@.len(), |i: int| chunk@[i] as u16),
        final(block).literal_freqs().len() == 286,
        final(block).literal_freqs().take(257) == literal_freqs(chunk@),
        forall|s: int| 257 <= s < 286 ==> final(block).literal_freqs()[s] == 0,
        final(block).distance_freqs() == Seq::new(30, |i: int| 0u32),
{
    let mut symbols: Vec<u16> = Vec::new();
    let mut freqs = zero_counters(NUM_LITERAL_SYMBOLS);
    let distance_freqs = zero_counters(NUM_DISTANCE_SYMBOLS);
    // A single end-of-block symbol closes the block.
    freqs[END_OF_BLOCK] = 1;
    let mut k: usize = 0;
    while k < chunk.len()
        invariant
            k <= chunk@.len() <= u32::MAX,
            symbols@.len() == k,
            forall|i: int| 0 <= i < k ==> symbols@[i] == chunk@[i] as u16,
            freqs@.len() == 286,
            freqs@[256] == 1,
            forall|s: int| 257 <= s < 286 ==> freqs@[s] == 0,
            forall|s: int| 0 <= s < 256 ==> freqs@[s] == occurrences(chunk@.take(k as int), s),
            forall|s: int| 0 <= s < 256 ==> freqs@[s] <= k,
        decreases chunk.len() - k,
    {
        let byte = chunk[k];
        symbols.push(byte as u16);
        let seen = freqs[byte as usize];
        freqs[byte as usize] = seen + 1;
        proof {
            assert(chunk@.take(k + 1).drop_last() =~= chunk@.take(k as int));
        }
        k += 1;
    }
    proof {
        assert(chunk@.take(chunk@.len() as int) =~= chunk@);
        assert(freqs@.take(257) =~= literal_freqs(chunk@));
        assert(symbols@ =~= Seq::new(chunk@.len(), |i: int| chunk@[i] as u16));
        assert(distance_freqs@ =~= Seq::new(30, |i: int| 0u32));
    }
    block.symbols = symbols;
    block.literal_freqs = freqs;
    block.distance_freqs = distance_freqs;
    BlockCompressionInfo { num_literal_codes: 257, num_distance_codes: 1 }
}

/// A length that stands for itself at the head of a run-length coding.
pub proof fn lemma_stream_plain(codes: Seq<PrefixCode>, v: u16, rest: Seq<u16>, k: int)
    requires
        v <= 15,
    ensures
        symbol_count(seq![v] + rest, k) == (if v == k { 1nat } else { 0nat }) + symbol_count(
            rest,
            k,
        ),
        valid_stream(seq![v] + rest) == valid_stream(rest),
        stream_bits(codes, seq![v] + rest) == codes[v as int].bits() + stream_bits(codes, rest),
{
    let all = seq![v] + rest;
    assert(all.skip(1) =~= rest);
    assert(all[0] == v);
    assert(codes[v as int].bits() + Seq::<bool>::empty() =~= codes[v as int].bits());
}

/// A symbol with its argument at the head of a run-length coding.
pub proof fn lemma_stream_coded(codes: Seq<PrefixCode>, symbol: u16, arg: u16, rest: Seq<u16>, k: int)
    requires
        16 <= symbol <= 18,
    ensures
        symbol_count(seq![symbol, arg] + rest, k) == (if symbol == k { 1nat } else { 0nat })
            + symbol_count(rest, k),
        valid_stream(seq![symbol, arg] + rest) == (arg < pow2(arg_bits(symbol)) && valid_stream(
            rest,
        )),
        stream_bits(codes, seq![symbol, arg] + rest) == codes[symbol as int].bits() + bits_of(
            arg as u64,
            arg_bits(symbol),
        ) + stream_bits(codes, rest),
{
    let all = seq![symbol, arg] + rest;
    assert(all.skip(2) =~= rest);
    assert(all[0] == symbol && all[1] == arg);
}

/// The run-length coding of the lengths of `table`; counts its symbols into
/// `lengths_freqs`.
#[verifier::rlimit(30)]
pub fn compress_huffman_table_gen_symbols(table: &HuffmanTable, lengths_freqs: &mut Vec<u32>) -> (symbols:
    Vec<u16>)
    requires
        old(lengths_freqs)@.len() == 19,
        forall|k: int|
            0 <= k < 19 ==> #[trigger] old(lengths_freqs)@[k] + table.codes@.len() + 1 <= u32::MAX,
        forall|s: int| 0 <= s < table.codes@.len() ==> (#[trigger] table.codes@[s]).length <= 15,
    ensures
        symbols@ == table_symbols(table.lengths()),
        valid_stream(symbols@),
        final(lengths_freqs)@.len() == 19,
        forall|k: int|
            0 <= k < 19 ==> #[trigger] final(lengths_freqs)@[k] == old(lengths_freqs)@[k]
                + symbol_count(symbols@, k),
        forall|k: int|
            0 <= k < 19 ==> #[trigger] final(lengths_freqs)@[k] <= old(lengths_freqs)@[k]
                + table.codes@.len() + 1,
{
    let ghost lengths = table.lengths();
    let ghost given = lengths_freqs@;
    let n = table.codes.len();
    if n == 0 {
        // A table must declare at least one code, so a single symbol
        // without a code is written.
        let seen = lengths_freqs[0];
        lengths_freqs[0] = seen + 1;
        let mut symbols: Vec<u16> = Vec::new();
        symbols.push(0);
        proof {
            let none = Seq::<u16>::empty();
            assert(symbols@ =~= seq![0u16] + none);
            assert forall|k: int| 0 <= k < 19 implies #[trigger] lengths_freqs@[k] == given[k]
                + symbol_count(symbols@, k) by {
                lemma_stream_plain(Seq::empty(), 0, none, k);
            }
            lemma_stream_plain(Seq::empty(), 0, none, 0);
        }
        return symbols;
    }
    let mut symbols: Vec<u16> = Vec::new();
    let ghost whole = rle_symbols(lengths, 0);
    let mut i: usize = 0;
    proof {
        assert(symbols@ + rle_symbols(lengths, 0) =~= whole);
        lemma2_to64();
    }
    while i < n
        invariant
            i <= n == table.codes@.len(),
            lengths == table.lengths(),
            lengths.len() == n,
            whole == rle_symbols(lengths, 0),
            forall|s: int| 0 <= s < table.codes@.len() ==> (#[trigger] table.codes@[s]).length <= 15,
            symbols@ + rle_symbols(lengths, i as int) == whole,
            lengths_freqs@.len() == 19,
            forall|k: int|
                0 <= k < 19 ==> #[trigger] given[k] + table.codes@.len() + 1 <= u32::MAX,
            forall|k: int|
                0 <= k < 19 ==> #[trigger] lengths_freqs@[k] + symbol_count(
                    rle_symbols(lengths, i as int),
                    k,
                ) == given[k] + symbol_count(whole, k),
            forall|k: int| 0 <= k < 19 ==> #[trigger] lengths_freqs@[k] <= given[k] + i,
            valid_stream(rle_symbols(lengths, i as int)) ==> valid_stream(whole),
        decreases n - i,
    {
        let length = table.code(i).length;
        let ghost before = lengths_freqs@;
        let ghost so_far = symbols@;
        // How far the run of this length goes.
        let mut j = i + 1;
        while j < n && table.codes[j].length == length
            invariant
                i < j <= n == table.codes@.len(),
                lengths == table.lengths(),
                length == lengths[i as int],
                repeats(lengths, length, i + 1) == (j - (i + 1)) + repeats(lengths, length, j as int),
            decreases n - j,
        {
            j += 1;
        }
        let run = j - i;
        let ghost head: Seq<u16>;
        let taken: usize;
        if length == 0 && run >= 3 {
            if run <= 10 {
                let seen = lengths_freqs[17];
                lengths_freqs[17] = seen + 1;
                taken = run;
                symbols.push(17);
                symbols.push((run - 3) as u16);
                proof {
                    head = seq![17u16, (run - 3) as u16];
                }
            } else {
                let seen = lengths_freqs[18];
                lengths_freqs[18] = seen + 1;
                taken = if run < 138 { run } else { 138 };
                symbols.push(18);
                symbols.push((taken - 11) as u16);
                proof {
                    head = seq![18u16, (taken - 11) as u16];
                }
            }
        } else {
            let seen = lengths_freqs[length as usize];
            lengths_freqs[length as usize] = seen + 1;
            symbols.push(length as u16);
            if run >= 4 {
                let seen = lengths_freqs[16];
                lengths_freqs[16] = seen + 1;
                taken = if run < 7 { run } else { 7 };
                symbols.push(16);
                symbols.push((taken - 4) as u16);
                proof {
                    head = seq![length as u16, 16u16, (taken - 4) as u16];
                }
            } else {
                taken = 1;
                proof {
                    head = seq![length as u16];
                }
            }
        }
        proof {
            lemma2_to64();
            let rest = rle_symbols(lengths, i + taken);
            assert(rle_symbols(lengths, i as int) == head + rest);
            assert(symbols@ =~= so_far + head);
            assert(symbols@ + rest =~= whole);
            let none = Seq::<PrefixCode>::empty();
            assert forall|k: int| 0 <= k < 19 implies #[trigger] lengths_freqs@[k] + symbol_count(
                rest,
                k,
            ) == given[k] + symbol_count(whole, k) && lengths_freqs@[k] <= given[k] + i + taken by {
                assert(before[k] + symbol_count(head + rest, k) == given[k] + symbol_count(
                    whole,
                    k,
                ));
                assert(before[k] <= given[k] + i);
                if head.len() == 1 {
                    lemma_stream_plain(none, head[0], rest, k);
                    assert(head =~= seq![head[0]]);
                } else if head.len() == 2 {
                    lemma_stream_coded(none, head[0], head[1], rest, k);
                    assert(head =~= seq![head[0], head[1]]);
                } else {
                    let tail = seq![16u16, head[2]] + rest;
                    assert(head + rest =~= seq![head[0]] + tail);
                    lemma_stream_plain(none, head[0], tail, k);
                    lemma_stream_coded(none, 16, head[2], rest, k);
                }
            }
            if valid_stream(rest) {
                if head.len() == 1 {
                    lemma_stream_plain(none, head[0], rest, 0);
                    assert(head =~= seq![head[0]]);
                } else if head.len() == 2 {
                    lemma_stream_coded(none, head[0], head[1], rest, 0);
                    assert(head =~= seq![head[0], head[1]]);
                } else {
                    let tail = seq![16u16, head[2]] + rest;
                    assert(head + rest =~= seq![head[0]] + tail);
                    lemma_stream_plain(none, head[0], tail, 0);
                    lemma_stream_coded(none, 16, head[2], rest, 0);
                }
                assert(valid_stream(head + rest));
            }
        }
        i += taken;
    }
    symbols
}

/// Writes a code.
fn write_code(writer: &mut BitWriter, code: &PrefixCode)
    requires
        code.well_formed(),
    ensures
        final(writer).bits() == old(writer).bits() + code.bits(),
{
    proof {
        lemma_fits_pow2(code.code as u64, code.length as nat);
    }
    writer.write_bits(code.code as u64, code.length as usize);
}

/// Writes a run-length coding with the code-length code.
pub fn write_huffman_length_symbols(
    writer: &mut BitWriter,
    symbols: &Vec<u16>,
    length_table: &HuffmanTable,
)
    requires
        valid_stream(symbols@),
        length_table.codes@.len() == 19,
        forall|s: int| 0 <= s < 19 ==> (#[trigger] length_table.codes@[s]).well_formed(),
    ensures
        final(writer).bits() == old(writer).bits() + stream_bits(length_table.codes@, symbols@),
{
    let ghost codes = length_table.codes@;
    let ghost base = writer.bits();
    let mut i: usize = 0;
    proof {
        assert(symbols@.skip(0) =~= symbols@);
    }
    while i < symbols.len()
        invariant
            i <= symbols@.len(),
            codes == length_table.codes@,
            codes.len() == 19,
            forall|s: int| 0 <= s < 19 ==> (#[trigger] codes[s]).well_formed(),
            valid_stream(symbols@.skip(i as int)),
            writer.bits() + stream_bits(codes, symbols@.skip(i as int)) == base + stream_bits(
                codes,
                symbols@,
            ),
        decreases symbols.len() - i,
    {
        let ghost left = symbols@.skip(i as int);
        let ghost written = writer.bits();
        let symbol = symbols[i];
        proof {
            assert(left[0] == symbol);
            assert(left.skip(item_len(left)) =~= symbols@.skip(i + item_len(left)));
            lemma2_to64();
        }
        write_code(writer, length_table.code(symbol as usize));
        if symbol >= 16 {
            proof {
                assert(left[1] == symbols@[i + 1]);
            }
            let width: usize = if symbol == 16 { 2 } else if symbol == 17 { 3 } else { 7 };
            i += 1;
            writer.write_bits(symbols[i] as u64, width);
        }
        i += 1;
        proof {
            let rest = stream_bits(codes, symbols@.skip(i as int));
            assert(writer.bits() + rest =~= written + stream_bits(codes, left));
        }
    }
    proof {
        assert(stream_bits(codes, symbols@.skip(i as int)) =~= Seq::<bool>::empty());
        assert(writer.bits() + Seq::<bool>::empty() =~= writer.bits());
    }
}

/// The lengths that package-merge gives under a limit below 32 are bytes
/// within the limit.
pub proof fn lemma_limited_lengths(freqs: Seq<u32>, max_length: nat, lengths: Seq<u8>)
    requires
        freqs.len() <= usize::MAX,
        1 <= max_length <= 31,
        freqs.len() <= pow2(max_length),
        spec_package_merge(freqs, max_length) == Ok::<Seq<nat>, PackageMergeError>(
            byte_values(lengths),
        ),
    ensures
        lengths == limited_lengths(freqs, max_length),
        lengths.len() == freqs.len(),
        kraft_holds(byte_values(lengths), max_length),
        forall|s: int| 0 <= s < lengths.len() ==> #[trigger] lengths[s] <= max_length,
        forall|s: int| 0 <= s < lengths.len() ==> (freqs[s] != 0 <==> #[trigger] lengths[s] >= 1),
{
    lemma_package_merge_kraft(freqs, max_length);
    let found = byte_values(lengths);
    assert forall|s: int| 0 <= s < lengths.len() implies #[trigger] lengths[s] <= max_length && (
    freqs[s] != 0 <==> lengths[s] >= 1) by {
        assert(found[s] == lengths[s]);
    }
    assert(lengths =~= limited_lengths(freqs, max_length));
}

/// The code for the symbols of the run-length codings of two tables.
fn length_code(lengths_freqs: &Vec<u32>) -> (table: HuffmanTable)
    requires
        lengths_freqs@.len() == 19,
    ensures
        table.lengths() == limited_lengths(lengths_freqs@, 7),
        table.codes@ == canonical_codes(table.lengths()),
        table.codes@.len() == 19,
        forall|s: int| 0 <= s < 19 ==> (#[trigger] table.codes@[s]).well_formed(),
        forall|s: int| 0 <= s < 19 ==> #[trigger] table.lengths()[s] <= 7,
{
    proof {
        assert(pow2(7) == 128) by {
            lemma2_to64();
        }
    }
    let table = match HuffmanTable::build_length_limited(
        lengths_freqs.as_slice(),
        MAX_LENGTH_CODE_LENGTH,
    ) {
        Ok(table) => table,
        Err(_) => {
            vstd::pervasive::unreached()
        },
    };
    proof {
        lemma_limited_lengths(lengths_freqs@, 7, table.lengths());
        lemma_canonical_codes(table.codes@);
        assert(table.codes@.len() == table.lengths().len());
    }
    table
}

/// Writes the number of code-length codes less 4, and their lengths.
fn write_length_code(writer: &mut BitWriter, length_table: &HuffmanTable)
    requires
        length_table.codes@.len() == 19,
        forall|s: int| 0 <= s < 19 ==> #[trigger] length_table.lengths()[s] <= 7,
    ensures
        final(writer).bits() == old(writer).bits() + bits_of(
            (trimmed_count(length_table.lengths(), 19) - 4) as u64,
            4,
        ) + order_bits(length_table.lengths(), trimmed_count(length_table.lengths(), 19), 0),
{
    let ghost lengths = length_table.lengths();
    let ghost base = writer.bits();
    let mut count: usize = 19;
    while count > 4 && length_table.code(length_order_at(count - 1)).length == 0
        invariant
            4 <= count <= 19,
            length_table.codes@.len() == 19,
            lengths == length_table.lengths(),
            trimmed_count(lengths, 19) == trimmed_count(lengths, count as nat),
        decreases count,
    {
        count -= 1;
    }
    proof {
        assert(pow2(4) == 16) by {
            lemma2_to64();
        }
    }
    writer.write_bits((count - 4) as u64, 4);
    let ghost start = writer.bits();
    let mut idx: usize = 0;
    proof {
        assert(writer.bits() + order_bits(lengths, count as nat, 0) =~= start + order_bits(
            lengths,
            count as nat,
            0,
        ));
    }
    while idx < count
        invariant
            idx <= count <= 19,
            length_table.codes@.len() == 19,
            lengths == length_table.lengths(),
            forall|s: int| 0 <= s < 19 ==> #[trigger] lengths[s] <= 7,
            writer.bits() + order_bits(lengths, count as nat, idx as nat) == start + order_bits(
                lengths,
                count as nat,
                0,
            ),
        decreases count - idx,
    {
        let ghost written = writer.bits();
        let symbol = length_order_at(idx);
        let length = length_table.code(symbol).length;
        proof {
            assert(pow2(3) == 8) by {
                lemma2_to64();
            }
            assert(lengths[symbol as int] == length);
        }
        writer.write_bits(length as u64, 3);
        idx += 1;
        proof {
            assert(writer.bits() + order_bits(lengths, count as nat, idx as nat) =~= written
                + order_bits(lengths, count as nat, (idx - 1) as nat));
        }
    }
    proof {
        assert(order_bits(lengths, count as nat, count as nat) =~= Seq::<bool>::empty());
        assert(writer.bits() =~= start + order_bits(lengths, count as nat, 0));
    }
}

/// The run-length codings of two tables, and how often each symbol occurs
/// in them.
struct Codings {
    literals: Vec<u16>,
    distances: Vec<u16>,
    freqs: Vec<u32>,
}

/// Codes the lengths of the two tables of a block.
fn table_codings(literal_table: &HuffmanTable, distance_table: &HuffmanTable) -> (r: Codings)
    requires
        literal_table.codes@.len() <= 286,
        distance_table.codes@.len() <= 30,
        forall|s: int|
            0 <= s < literal_table.codes@.len() ==> (#[trigger] literal_table.codes@[s]).length
                <= 15,
        forall|s: int|
            0 <= s < distance_table.codes@.len() ==> (#[trigger] distance_table.codes@[s]).length
                <= 15,
    ensures
        r.literals@ == table_symbols(literal_table.lengths()),
        r.distances@ == table_symbols(distance_table.lengths()),
        valid_stream(r.literals@),
        valid_stream(r.distances@),
        r.freqs@ == length_freqs(r.literals@, r.distances@),
{
    let mut freqs = zero_counters(NUM_LENGTH_SYMBOLS);
    let literals = compress_huffman_table_gen_symbols(literal_table, &mut freqs);
    let distances = compress_huffman_table_gen_symbols(distance_table, &mut freqs);
    proof {
        assert(freqs@ =~= length_freqs(literals@, distances@));
    }
    Codings { literals, distances, freqs }
}

/// Writes a block's header: the numbers of codes, the code-length code, and
/// the lengths of the two tables' codes written with it.
pub fn write_huffman_tables(
    writer: &mut BitWriter,
    literal_table: &HuffmanTable,
    distance_table: &HuffmanTable,
    info: &BlockCompressionInfo,
)
    requires
        info.num_literal_codes == literal_table.codes@.len(),
        info.num_distance_codes == distance_table.codes@.len(),
        257 <= info.num_literal_codes <= 286,
        1 <= info.num_distance_codes <= 30,
        forall|s: int|
            0 <= s < literal_table.codes@.len() ==> (#[trigger] literal_table.codes@[s]).length
                <= 15,
        forall|s: int|
            0 <= s < distance_table.codes@.len() ==> (#[trigger] distance_table.codes@[s]).length
                <= 15,
    ensures
        final(writer).bits() == old(writer).bits() + header_bits(
            literal_table.lengths(),
            distance_table.lengths(),
        ),
{
    let ghost base = writer.bits();
    let ghost literals = literal_table.lengths();
    let ghost distances = distance_table.lengths();
    proof {
        assert(pow2(5) == 32) by {
            lemma2_to64();
        }
        assert(literals.len() == literal_table.codes@.len());
        assert(distances.len() == distance_table.codes@.len());
    }
    // The number of literal/length codes less 257, and of distance codes less 1.
    writer.write_bits((info.num_literal_codes - 257) as u64, 5);
    let ghost part1 = bits_of((literals.len() - 257) as u64, 5);
    writer.write_bits((info.num_distance_codes - 1) as u64, 5);
    let ghost part2 = part1 + bits_of((distances.len() - 1) as u64, 5);
    proof {
        assert(writer.bits() =~= base + part2);
    }
    let codings = table_codings(literal_table, distance_table);
    let literal_symbols = codings.literals;
    let distance_symbols = codings.distances;
    let lengths_freqs = codings.freqs;
    let length_table = length_code(&lengths_freqs);
    let ghost lengths = length_table.lengths();
    let ghost codes = length_table.codes@;
    let ghost count = trimmed_count(lengths, 19);
    write_length_code(writer, &length_table);
    let ghost part4 = part2 + bits_of((count - 4) as u64, 4) + order_bits(lengths, count, 0);
    proof {
        assert(writer.bits() =~= base + part4);
    }
    write_huffman_length_symbols(writer, &literal_symbols, &length_table);
    let ghost part5 = part4 + stream_bits(codes, literal_symbols@);
    proof {
        assert(writer.bits() =~= base + part5);
    }
    write_huffman_length_symbols(writer, &distance_symbols, &length_table);
    proof {
        let part6 = part5 + stream_bits(codes, distance_symbols@);
        assert(writer.bits() =~= base + part6);
        assert(part6 == header_bits(literals, distances));
    }
}

/// The codes for the literals and for the distances of a block.
fn block_code(freqs: &[u32]) -> (table: HuffmanTable)
    requires
        1 <= freqs@.len() <= 286,
    ensures
        table.lengths() == limited_lengths(freqs@, 15),
        table.codes@ == canonical_codes(table.lengths()),
        table.codes@.len() == freqs@.len(),
        forall|s: int| 0 <= s < table.codes@.len() ==> (#[trigger] table.codes@[s]).well_formed(),
        forall|s: int| 0 <= s < table.codes@.len() ==> (#[trigger] table.codes@[s]).length <= 15,
{
    proof {
        assert(pow2(15) == 32768) by {
            lemma2_to64();
        }
    }
    let table = match HuffmanTable::build_length_limited(freqs, MAX_CODE_LENGTH) {
        Ok(table) => table,
        Err(_) => {
            vstd::pervasive::unreached()
        },
    };
    proof {
        lemma_limited_lengths(freqs@, 15, table.lengths());
        lemma_canonical_codes(table.codes@);
        assert(table.codes@.len() == table.lengths().len());
        assert forall|s: int| 0 <= s < table.codes@.len() implies (#[trigger] table.codes@[s]).length
            <= 15 by {
            assert(table.lengths()[s] == table.codes@[s].length);
        }
    }
    table
}

/// Writes the codes of the symbols of a block's payload.
fn write_payload(writer: &mut BitWriter, table: &HuffmanTable, block: &Block, Ghost(chunk): Ghost<Seq<u8>>)
    requires
        block.symbols() == Seq::new(chunk.len(), |i: int| chunk[i] as u16),
        table.codes@.len() >= 256,
        forall|s: int| 0 <= s < table.codes@.len() ==> (#[trigger] table.codes@[s]).well_formed(),
    ensures
        final(writer).bits() == old(writer).bits() + payload_bits(table.codes@, chunk),
{
    let ghost base = writer.bits();
    let ghost codes = table.codes@;
    let mut k: usize = 0;
    proof {
        assert(chunk.take(0) =~= Seq::<u8>::empty());
        assert(base + payload_bits(codes, chunk.take(0)) =~= base);
    }
    while k < block.symbols.len()
        invariant
            k <= block.symbols@.len() == chunk.len(),
            block.symbols() == Seq::new(chunk.len(), |i: int| chunk[i] as u16),
            codes == table.codes@,
            codes.len() >= 256,
            forall|s: int| 0 <= s < codes.len() ==> (#[trigger] codes[s]).well_formed(),
            writer.bits() == base + payload_bits(codes, chunk.take(k as int)),
        decreases block.symbols.len() - k,
    {
        let symbol = block.symbols[k];
        proof {
            assert(block.symbols()[k as int] == chunk[k as int] as u16);
            assert(chunk.take(k + 1).drop_last() =~= chunk.take(k as int));
        }
        write_code(writer, table.code(symbol as usize));
        k += 1;
        proof {
            assert(writer.bits() =~= base + payload_bits(codes, chunk.take(k as int)));
        }
    }
    proof {
        assert(chunk.take(chunk.len() as int) =~= chunk);
    }
}

/// Writes the next block of `input`, which starts at `position`, and moves
/// `position` past it. Says whether the block was the last.
#[verifier::rlimit(50)]
pub fn compress_block(
    input: &[u8],
    position: &mut usize,
    writer: &mut BitWriter,
    block: &mut Block,
    options: &DeflateOptions,
) -> (bfinal: bool)
    requires
        *old(position) < input@.len(),
        1 <= options.block_size <= u32::MAX,
    ensures
        *final(position) == (if *old(position) + options.block_size < input@.len() {
            *old(position) + options.block_size
        } else {
            input@.len() as int
        }),
        bfinal == (*final(position) == input@.len()),
        final(writer).bits() == old(writer).bits() + block_bits(
            input@.subrange(*old(position) as int, *final(position) as int),
            bfinal,
        ),
{
    let start = *position;
    let left = input.len() - start;
    let end = if left > options.block_size { start + options.block_size } else { input.len() };
    let chunk = vstd::slice::slice_subrange(input, start, end);
    let ghost base = writer.bits();
    let info = compress_block_gen_symbols(chunk, block);
    let literal_freqs = vstd::slice::slice_subrange(
        block.literal_freqs.as_slice(),
        0,
        info.num_literal_codes,
    );
    let distance_freqs = vstd::slice::slice_subrange(
        block.distance_freqs.as_slice(),
        0,
        info.num_distance_codes,
    );
    proof {
        assert(pow2(3) == 8) by {
            lemma2_to64();
        }
        assert(literal_freqs@ =~= crate::stream::literal_freqs(chunk@));
        assert(distance_freqs@ =~= seq![0u32]);
    }
    let literal_table = block_code(literal_freqs);
    let distance_table = block_code(distance_freqs);
    let ghost codes = literal_table.codes@;
    let bfinal = is_end_of_file(input, end);
    // The final-block bit, and the block type: dynamic Huffman codes.
    writer.write_bits(if bfinal { 5 } else { 4 }, 3);
    let ghost part1 = bits_of(if bfinal { 5u64 } else { 4u64 }, 3);
    write_huffman_tables(writer, &literal_table, &distance_table, &info);
    let ghost part2 = part1 + header_bits(literal_table.lengths(), distance_table.lengths());
    proof {
        assert(writer.bits() =~= base + part2);
    }
    write_payload(writer, &literal_table, block, Ghost(chunk@));
    let ghost part3 = part2 + payload_bits(codes, chunk@);
    proof {
        assert(writer.bits() =~= base + part3);
    }
    write_code(writer, literal_table.code(END_OF_BLOCK));
    *position = end;
    proof {
        let part4 = part3 + codes[256].bits();
        assert(writer.bits() =~= base + part4);
        assert(literal_table.lengths() == block_lengths(chunk@));
        assert(distance_table.lengths() == distance_lengths());
        assert(part4 == block_bits(chunk@, bfinal));
    }
    bfinal
}

/// Compresses `input` into a stream of blocks of at most
/// `options.block_size` bytes each.
pub fn compress(input: &[u8], options: DeflateOptions) -> (out: Vec<u8>)
    requires
        input@.len() > 0,
        1 <= options.block_size <= u32::MAX,
    ensures
        out@ == spec_compress(input@, options.block_size as nat),
{
    let mut bit_writer = BitWriter::new(Vec::new());
    let mut block = Block::default();
    let mut position: usize = 0;
    let mut done = false;
    let ghost size = options.block_size as nat;
    let ghost whole = stream_of(input@, size);
    proof {
        assert(input@.skip(0) =~= input@);
        assert(bytes_bits(Seq::<u8>::empty()) =~= Seq::<bool>::empty());
        assert(bit_writer.bits() + whole =~= whole);
    }
    while !done
        invariant
            size == options.block_size,
            1 <= options.block_size <= u32::MAX,
            whole == stream_of(input@, size),
            position <= input@.len(),
            !done ==> position < input@.len(),
            !done ==> bit_writer.bits() + stream_of(input@.skip(position as int), size) == whole,
            done ==> bit_writer.bits() == whole,
        decreases input@.len() - position, !done as int,
    {
        let ghost written = bit_writer.bits();
        let ghost left = input@.skip(position as int);
        let ghost from = position;
        done = compress_block(input, &mut position, &mut bit_writer, &mut block, &options);
        proof {
            if done {
                assert(input@.subrange(from as int, position as int) =~= left);
            } else {
                assert(input@.subrange(from as int, position as int) =~= left.take(size as int));
                assert(input@.skip(position as int) =~= left.skip(size as int));
                assert(bit_writer.bits() + stream_of(input@.skip(position as int), size)
                    =~= written + stream_of(left, size));
            }
        }
    }
    bit_writer.flush();
    let out = bit_writer.into_bytes();
    proof {
        lemma_pack_bytes(out@, whole);
    }
    out
}

} // verus!
