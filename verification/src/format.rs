//! The bit format of a stream of dynamic-Huffman DEFLATE blocks, as the
//! decoder reads it.
//!
//! A block starts with a final-block bit and a two-bit block type, which must
//! be 2. Its header gives the number of literal/length codes (5 bits, less
//! 257), of distance codes (5 bits, less 1) and of code-length codes (4 bits,
//! less 4), then the lengths of the code-length codes, 3 bits each in a fixed
//! order of symbols, then the lengths of the literal/length codes and of the
//! distance codes, each written with the code-length code. The payload is a
//! sequence of literals that ends with the end-of-block symbol.

use vstd::prelude::*;
use crate::bits::{bytes_bits, value_of};
use crate::canonical::{canonical_bits, lemma_canonical_bits_differ};
use crate::package_merge::byte_values;
use crate::kraft::kraft_holds;
use crate::huffman::PrefixCode;
use crate::tree::{
    HuffmanTree, prefix_free, tree_fits, total_length, is_inner_path, starts_with,
};

verus! {

/// Why a stream could not be decoded.
#[derive(Debug, Clone, Copy, PartialEq, Eq, Structural)]
pub enum DeflateError {
    /// The input ended in the middle of a field or a code.
    UnexpectedEof,
    /// A block is not a well-formed dynamic-Huffman block.
    MalformedHeader,
    /// A length code was met; only blocks of literals are decoded.
    Unsupported,
}

/// The end-of-block symbol.
pub const END_OF_BLOCK: usize = 256;

/// The greatest number of literal/length codes.
pub const NUM_LITERAL_SYMBOLS: usize = 286;

/// The greatest number of distance codes.
pub const NUM_DISTANCE_SYMBOLS: usize = 30;

/// The number of symbols of the code-length alphabet.
pub const NUM_LENGTH_SYMBOLS: usize = 19;

/// The greatest length of a literal/length or distance code.
pub const MAX_CODE_LENGTH: usize = 15;

/// The greatest length of a code-length code.
pub const MAX_LENGTH_CODE_LENGTH: usize = 7;

/// The order in which the lengths of the code-length codes are written.
pub open spec fn length_order() -> Seq<usize> {
    seq![16usize, 17, 18, 0, 8, 7, 9, 6, 10, 5, 11, 4, 12, 3, 13, 2, 14, 1, 15]
}

/// The canonical codes of a vector of lengths.
pub open spec fn canonical_codes(lengths: Seq<u8>) -> Seq<PrefixCode> {
    Seq::new(
        lengths.len(),
        |s: int| PrefixCode { code: value_of(canonical_bits(lengths, s)) as u32, length: lengths[s] },
    )
}

/// The bits of a canonical code are those that its lengths stand for.
pub proof fn lemma_canonical_code_bits(lengths: Seq<u8>, s: int)
    requires
        0 <= s < lengths.len(),
        lengths[s] <= 31,
    ensures
        canonical_codes(lengths)[s].bits() == canonical_bits(lengths, s),
        canonical_codes(lengths)[s].well_formed(),
{
    let bits = canonical_bits(lengths, s);
    crate::bits::lemma_value_of_bound(bits);
    assert(value_of(bits) < 0x1_0000_0000) by {
        vstd::arithmetic::power2::lemma2_to64();
        if bits.len() < 32 {
            vstd::arithmetic::power2::lemma_pow2_strictly_increases(bits.len(), 32);
        }
    }
    let code = value_of(bits) as u32;
    crate::bits::lemma_bits_of_value(bits, code as u64);
    crate::bits::lemma_fits_pow2(code as u64, bits.len());
}

/// Lengths of at most 31 bits with a Kraft sum of at most 1 have canonical
/// codes of which none starts another.
pub proof fn lemma_canonical_prefix_free(lengths: Seq<u8>, m: nat)
    requires
        m <= 31,
        kraft_holds(byte_values(lengths), m),
    ensures
        prefix_free(canonical_codes(lengths)),
{
    let codes = canonical_codes(lengths);
    assert forall|a: int, b: int|
        0 <= a < codes.len() && 0 <= b < codes.len() && a != b && (#[trigger] codes[a]).length > 0
            && (#[trigger] codes[b]).length > 0 implies !starts_with(
        codes[b].bits(),
        codes[a].bits(),
    ) by {
        assert(byte_values(lengths)[a] == lengths[a]);
        assert(byte_values(lengths)[b] == lengths[b]);
        lemma_canonical_code_bits(lengths, a);
        lemma_canonical_code_bits(lengths, b);
        if lengths[a] <= lengths[b] {
            lemma_canonical_bits_differ(lengths, m, a, b);
        }
    }
}

/// Lengths of at most 31 bits with a Kraft sum of at most 1 have a decoding
/// tree wherever the tree of their codes has room in the node array, as it
/// has with a symbol more than the codes have bits: then `HuffmanTree::from`
/// of their canonical table gives a tree, in which the code of each symbol
/// leads to the symbol's leaf.
pub proof fn lemma_canonical_tree(lengths: Seq<u8>, m: nat)
    requires
        m <= 31,
        kraft_holds(byte_values(lengths), m),
        tree_fits(canonical_codes(lengths)) || total_length(
            canonical_codes(lengths),
            lengths.len(),
        ) + 1 <= lengths.len(),
    ensures
        prefix_free(canonical_codes(lengths)),
        tree_fits(canonical_codes(lengths)),
{
    lemma_canonical_prefix_free(lengths, m);
    if !tree_fits(canonical_codes(lengths)) {
        crate::tree::lemma_fits_by_length(canonical_codes(lengths));
    }
}

/// The field of `n` bits at `at`, if the bits reach that far.
pub open spec fn field(bits: Seq<bool>, at: nat, n: nat) -> Option<nat> {
    if at + n <= bits.len() {
        Some(value_of(bits.subrange(at as int, (at + n) as int)))
    } else {
        None
    }
}

/// Whether the code of symbol `s` stands at `at`.
pub open spec fn matches_at(codes: Seq<PrefixCode>, bits: Seq<bool>, at: nat, s: int) -> bool {
    &&& 0 <= s < codes.len()
    &&& codes[s].length > 0
    &&& at + codes[s].length <= bits.len()
    &&& bits.subrange(at as int, at + codes[s].length) == codes[s].bits()
}

/// The symbol whose code stands at `at`, and where its code ends.
///
/// Where no code stands there, the input has ended too early if what is left
/// of it starts a code, and is malformed otherwise.
#[verifier::opaque]
pub open spec fn decode_symbol(codes: Seq<PrefixCode>, bits: Seq<bool>, at: nat) -> Result<
    (nat, nat),
    DeflateError,
> {
    if exists|s: int| matches_at(codes, bits, at, s) {
        let s = choose|s: int| matches_at(codes, bits, at, s);
        Ok((s as nat, at + codes[s].length as nat))
    } else if at >= bits.len() || is_inner_path(codes, bits.skip(at as int)) {
        Err(DeflateError::UnexpectedEof)
    } else {
        Err(DeflateError::MalformedHeader)
    }
}

/// `n` times the length `v`.
pub open spec fn repeat_of(v: u8, n: nat) -> Seq<u8> {
    Seq::new(n, |i: int| v)
}

/// The `count` code lengths written from `at` on with the code-length code
/// `codes`, after those already in `acc`.
///
/// A symbol up to 15 is a length. Symbol 16 repeats the length before it 3 to
/// 6 times, as its 2 bits say; 17 stands for 3 to 10 lengths of 0 (3 bits),
/// and 18 for 11 to 138 (7 bits). A repetition with nothing before it, or one
/// that gives more lengths than `count`, is malformed.
pub open spec fn parse_lengths(
    codes: Seq<PrefixCode>,
    bits: Seq<bool>,
    at: nat,
    count: nat,
    acc: Seq<u8>,
) -> Result<(Seq<u8>, nat), DeflateError>
    decreases bits.len() - at,
{
    if acc.len() >= count {
        Ok((acc, at))
    } else {
        match decode_symbol(codes, bits, at) {
            Err(e) => Err(e),
            Ok((sym, next)) => {
                if next <= at || next > bits.len() || sym > 18 {
                    Err(DeflateError::MalformedHeader)
                } else if sym <= 15 {
                    parse_lengths(codes, bits, next, count, acc.push(sym as u8))
                } else if sym == 16 && acc.len() == 0 {
                    Err(DeflateError::MalformedHeader)
                } else {
                    let width: nat = if sym == 16 { 2 } else if sym == 17 { 3 } else { 7 };
                    let least: nat = if sym == 18 { 11 } else { 3 };
                    let v: u8 = if sym == 16 { acc.last() } else { 0 };
                    match field(bits, next, width) {
                        None => Err(DeflateError::UnexpectedEof),
                        Some(arg) => {
                            if acc.len() + arg + least > count {
                                Err(DeflateError::MalformedHeader)
                            } else {
                                parse_lengths(
                                    codes,
                                    bits,
                                    next + width,
                                    count,
                                    acc + repeat_of(v, arg + least),
                                )
                            }
                        },
                    }
                }
            },
        }
    }
}

/// The lengths of the code-length codes: `count` fields of 3 bits from `at`
/// on give the lengths of the symbols in `length_order`, from place `i` on;
/// the other symbols keep what `acc` has for them.
pub open spec fn order_lengths(bits: Seq<bool>, at: nat, count: nat, i: nat, acc: Seq<u8>) -> Seq<u8>
    decreases count - i,
{
    if i >= count {
        acc
    } else {
        order_lengths(
            bits,
            at,
            count,
            i + 1,
            acc.update(
                length_order()[i as int] as int,
                value_of(bits.subrange((at + 3 * i) as int, (at + 3 * i + 3) as int)) as u8,
            ),
        )
    }
}

/// The lengths of the literal/length codes that the header at `at` declares,
/// and where the header ends.
pub open spec fn parse_header(bits: Seq<bool>, at: nat) -> Result<(Seq<u8>, nat), DeflateError> {
    if at + 14 > bits.len() {
        Err(DeflateError::UnexpectedEof)
    } else {
        let literals = field(bits, at, 5)->0 + 257;
        let distances = field(bits, at + 5, 5)->0 + 1;
        let count = field(bits, at + 10, 4)->0 + 4;
        if literals > 286 || distances > 30 {
            Err(DeflateError::MalformedHeader)
        } else if at + 14 + 3 * count > bits.len() {
            Err(DeflateError::UnexpectedEof)
        } else {
            let lengths = order_lengths(bits, at + 14, count, 0, repeat_of(0, 19));
            let codes = canonical_codes(lengths);
            if !prefix_free(codes) {
                Err(DeflateError::MalformedHeader)
            } else {
                match parse_lengths(codes, bits, at + 14 + 3 * count, literals, Seq::empty()) {
                    Err(e) => Err(e),
                    Ok((literal_lengths, middle)) => match parse_lengths(
                        codes,
                        bits,
                        middle,
                        distances,
                        Seq::empty(),
                    ) {
                        Err(e) => Err(e),
                        Ok((_, end)) => Ok((literal_lengths, end)),
                    },
                }
            }
        }
    }
}

/// The literals written from `at` on with `codes`, after those in `acc`, up
/// to the end-of-block symbol, and where that symbol ends.
pub open spec fn parse_payload(codes: Seq<PrefixCode>, bits: Seq<bool>, at: nat, acc: Seq<u8>) -> Result<
    (Seq<u8>, nat),
    DeflateError,
>
    decreases bits.len() - at,
{
    match decode_symbol(codes, bits, at) {
        Err(e) => Err(e),
        Ok((sym, next)) => {
            if next <= at || next > bits.len() {
                Err(DeflateError::MalformedHeader)
            } else if sym < 256 {
                parse_payload(codes, bits, next, acc.push(sym as u8))
            } else if sym == 256 {
                Ok((acc, next))
            } else {
                Err(DeflateError::Unsupported)
            }
        },
    }
}

/// The block at `at`: its literals, whether it is the last, and where it ends.
pub open spec fn parse_block(bits: Seq<bool>, at: nat) -> Result<(Seq<u8>, bool, nat), DeflateError> {
    if at + 3 > bits.len() {
        Err(DeflateError::UnexpectedEof)
    } else if field(bits, at + 1, 2)->0 != 2 {
        Err(DeflateError::MalformedHeader)
    } else {
        match parse_header(bits, at + 3) {
            Err(e) => Err(e),
            Ok((lengths, start)) => {
                let codes = canonical_codes(lengths);
                if !prefix_free(codes) {
                    Err(DeflateError::MalformedHeader)
                } else {
                    match parse_payload(codes, bits, start, Seq::empty()) {
                        Err(e) => Err(e),
                        Ok((data, end)) => Ok((data, field(bits, at, 1)->0 != 0, end)),
                    }
                }
            },
        }
    }
}

/// The literals of the blocks from `at` on up to the last, after those in
/// `acc`, and where the last block ends.
pub open spec fn parse_stream(bits: Seq<bool>, at: nat, acc: Seq<u8>) -> Result<
    (Seq<u8>, nat),
    DeflateError,
>
    decreases bits.len() - at,
{
    match parse_block(bits, at) {
        Err(e) => Err(e),
        Ok((data, last, end)) => {
            if last {
                Ok((acc + data, end))
            } else if end <= at || end > bits.len() {
                Err(DeflateError::MalformedHeader)
            } else {
                parse_stream(bits, end, acc + data)
            }
        },
    }
}

/// What a stream of blocks at the start of `data` decodes to, and how many
/// bytes of `data` it takes up.
pub open spec fn spec_decompress(data: Seq<u8>) -> Result<(Seq<u8>, nat), DeflateError> {
    match parse_stream(bytes_bits(data), 0, Seq::empty()) {
        Err(e) => Err(e),
        Ok((out, end)) => Ok((out, ((end + 7) / 8) as nat)),
    }
}

// ---------------------------------------------------------------------------
// Decoding a symbol by walking the tree of the codes

/// A code that stands at `at` is longer than any path of inner nodes that
/// the bits at `at` lead along.
pub proof fn lemma_match_is_longer(
    tree: HuffmanTree,
    codes: Seq<PrefixCode>,
    bits: Seq<bool>,
    at: nat,
    k: nat,
    s: int,
)
    requires
        tree.decodes(codes),
        at + k <= bits.len(),
        tree.descend(bits.subrange(at as int, (at + k) as int)) is Some,
        k == 0 || tree.descend(bits.subrange(at as int, (at + k) as int))->0 >= tree.symbols(),
        matches_at(codes, bits, at, s),
    ensures
        codes[s].length > k,
{
    let path = bits.subrange(at as int, (at + k) as int);
    let len = codes[s].length as int;
    if len <= k {
        assert(path.take(len) =~= bits.subrange(at as int, at + len));
        assert(tree.descend(codes[s].bits()) == Some(s));
        tree.lemma_descend_take(path, len);
        assert(tree.descend(path.take(len)) == Some(s));
        if len < k {
            tree.lemma_descend_take(path, len + 1);
            assert(tree.child(s, path[len]) is Some);
            tree.lemma_child(s, path[len]);
        } else {
            assert(path.take(len) =~= path);
        }
    }
}

/// Where the bits run out on a path of inner nodes, the input has ended early.
pub proof fn lemma_decode_eof(
    tree: HuffmanTree,
    codes: Seq<PrefixCode>,
    bits: Seq<bool>,
    at: nat,
    k: nat,
)
    requires
        tree.decodes(codes),
        at + k == bits.len(),
        tree.descend(bits.subrange(at as int, (at + k) as int)) is Some,
        k == 0 || tree.descend(bits.subrange(at as int, (at + k) as int))->0 >= tree.symbols(),
    ensures
        decode_symbol(codes, bits, at) == Err::<(nat, nat), DeflateError>(
            DeflateError::UnexpectedEof,
        ),
{
    reveal(decode_symbol);
    let path = bits.subrange(at as int, (at + k) as int);
    assert forall|s: int| !matches_at(codes, bits, at, s) by {
        if matches_at(codes, bits, at, s) {
            lemma_match_is_longer(tree, codes, bits, at, k, s);
        }
    }
    if k > 0 {
        assert(path =~= bits.skip(at as int));
        tree.lemma_leaf_path(codes, path);
    }
}

/// Where a node has no child on the side of the next bit, no code stands
/// there and none could with more bits.
pub proof fn lemma_decode_bad(
    tree: HuffmanTree,
    codes: Seq<PrefixCode>,
    bits: Seq<bool>,
    at: nat,
    k: nat,
)
    requires
        tree.decodes(codes),
        at + k < bits.len(),
        tree.descend(bits.subrange(at as int, (at + k) as int)) is Some,
        k == 0 || tree.descend(bits.subrange(at as int, (at + k) as int))->0 >= tree.symbols(),
        tree.child(
            tree.descend(bits.subrange(at as int, (at + k) as int))->0,
            bits[(at + k) as int],
        ) is None,
    ensures
        decode_symbol(codes, bits, at) == Err::<(nat, nat), DeflateError>(
            DeflateError::MalformedHeader,
        ),
{
    reveal(decode_symbol);
    let path = bits.subrange(at as int, (at + k) as int);
    let more = bits.subrange(at as int, (at + k + 1) as int);
    assert(more.drop_last() =~= path);
    assert(tree.descend(more) is None);
    assert forall|s: int| !matches_at(codes, bits, at, s) by {
        if matches_at(codes, bits, at, s) {
            lemma_match_is_longer(tree, codes, bits, at, k, s);
            let whole = codes[s].bits();
            assert(tree.descend(whole) == Some(s));
            tree.lemma_descend_take(whole, k as int + 1);
            assert(whole.take(k as int + 1) =~= more);
        }
    }
    let rest = bits.skip(at as int);
    if is_inner_path(codes, rest) {
        let s = choose|s: int|
            0 <= s < codes.len() && rest.len() < (#[trigger] codes[s]).length
                && codes[s].bits().take(rest.len() as int) == rest;
        let whole = codes[s].bits();
        assert(tree.descend(whole) == Some(s));
        tree.lemma_descend_take(whole, k as int + 1);
        assert(whole.take(k as int + 1) =~= more) by {
            assert(whole.take(rest.len() as int).take(k as int + 1) =~= whole.take(k as int + 1));
            assert(rest.take(k as int + 1) =~= more);
        }
    }
}

/// Where the next bit leads to a leaf, the code of the leaf's symbol stands
/// at `at`, and no other.
pub proof fn lemma_decode_leaf(
    tree: HuffmanTree,
    codes: Seq<PrefixCode>,
    bits: Seq<bool>,
    at: nat,
    k: nat,
    c: int,
)
    requires
        tree.decodes(codes),
        prefix_free(codes),
        at + k < bits.len(),
        tree.descend(bits.subrange(at as int, (at + k) as int)) is Some,
        tree.child(
            tree.descend(bits.subrange(at as int, (at + k) as int))->0,
            bits[(at + k) as int],
        ) == Some(c),
        c < tree.symbols(),
    ensures
        decode_symbol(codes, bits, at) == Ok::<(nat, nat), DeflateError>((c as nat, at + k + 1)),
        0 <= c < codes.len(),
        codes[c].length == k + 1,
{
    reveal(decode_symbol);
    let path = bits.subrange(at as int, (at + k) as int);
    let more = bits.subrange(at as int, (at + k + 1) as int);
    assert(more.drop_last() =~= path);
    assert(tree.descend(more) == Some(c));
    tree.lemma_child(tree.descend(path)->0, bits[(at + k) as int]);
    tree.lemma_leaf_path(codes, more);
    assert(matches_at(codes, bits, at, c));
    let found = choose|s: int| matches_at(codes, bits, at, s);
    lemma_match_unique(codes, bits, at, c, found);
}

/// Of codes of which none starts another, at most one stands at a place.
pub proof fn lemma_match_unique(codes: Seq<PrefixCode>, bits: Seq<bool>, at: nat, a: int, b: int)
    requires
        prefix_free(codes),
        matches_at(codes, bits, at, a),
        matches_at(codes, bits, at, b),
    ensures
        a == b,
{
    if a != b {
        let x = codes[a].bits();
        let y = codes[b].bits();
        if x.len() <= y.len() {
            assert(y.take(x.len() as int) =~= x);
            assert(starts_with(y, x));
        } else {
            assert(x.take(y.len() as int) =~= y);
            assert(starts_with(x, y));
        }
    }
}

/// Where the next bit leads to an inner node, some code is longer than the
/// path so far.
pub proof fn lemma_decode_inner(
    tree: HuffmanTree,
    codes: Seq<PrefixCode>,
    bits: Seq<bool>,
    at: nat,
    k: nat,
    c: int,
    bound: nat,
)
    requires
        tree.decodes(codes),
        forall|s: int| 0 <= s < codes.len() ==> (#[trigger] codes[s]).length <= bound,
        at + k < bits.len(),
        tree.descend(bits.subrange(at as int, (at + k) as int)) is Some,
        tree.child(
            tree.descend(bits.subrange(at as int, (at + k) as int))->0,
            bits[(at + k) as int],
        ) == Some(c),
        c >= tree.symbols(),
    ensures
        tree.descend(bits.subrange(at as int, (at + k + 1) as int)) == Some(c),
        k + 1 < bound,
{
    let path = bits.subrange(at as int, (at + k) as int);
    let more = bits.subrange(at as int, (at + k + 1) as int);
    assert(more.drop_last() =~= path);
    tree.lemma_leaf_path(codes, more);
    let s = choose|s: int|
        0 <= s < codes.len() && more.len() < (#[trigger] codes[s]).length && codes[s].bits().take(
            more.len() as int,
        ) == more;
    assert(codes[s].length <= bound);
}

} // verus!
