//! Why decoding gives back what was encoded.

use vstd::prelude::*;
use vstd::arithmetic::power2::{pow2, lemma2_to64};
use crate::bits::{bits_of, bytes_bits, value_of, zeros, lemma_value_of_bits};
use crate::deflate::{lemma_stream_plain, lemma_stream_coded};
use crate::format::{
    DeflateError, canonical_codes, field, matches_at, decode_symbol, repeat_of, parse_lengths,
    order_lengths, parse_header, parse_payload, parse_block, parse_stream, spec_decompress,
    length_order, lemma_match_unique, lemma_canonical_prefix_free,
};
use crate::huffman::PrefixCode;
use crate::kraft::kraft_holds;
use crate::package_merge::{spec_package_merge, byte_values};
use crate::package_merge_proofs::lemma_package_merge_kraft;
use crate::stream::{
    occurrences, literal_freqs, limited_lengths, repeats, rle_symbols, table_symbols, item_len,
    arg_bits, symbol_count, length_freqs, stream_bits, trimmed_count, order_bits, header_bits,
    payload_bits, block_lengths, distance_lengths, block_bits, stream_of, pack, spec_compress,
    lemma_repeats_bound,
};
use crate::tree::prefix_free;

verus! {

/// Whether the bits `x` stand at `at`.
pub open spec fn holds_at(bits: Seq<bool>, at: nat, x: Seq<bool>) -> bool {
    at + x.len() <= bits.len() && bits.subrange(at as int, (at + x.len()) as int) == x
}

/// Where two sequences stand one after the other, each stands at its place.
pub proof fn lemma_holds_split(bits: Seq<bool>, at: nat, x: Seq<bool>, y: Seq<bool>)
    requires
        holds_at(bits, at, x + y),
    ensures
        holds_at(bits, at, x),
        holds_at(bits, (at + x.len()) as nat, y),
{
    let whole = bits.subrange(at as int, (at + x.len() + y.len()) as int);
    assert(bits.subrange(at as int, (at + x.len()) as int) =~= whole.take(x.len() as int));
    assert(bits.subrange((at + x.len()) as int, (at + x.len() + y.len()) as int) =~= whole.skip(
        x.len() as int,
    ));
    assert((x + y).take(x.len() as int) =~= x);
    assert((x + y).skip(x.len() as int) =~= y);
}

/// A field that was written is the field that is read.
pub proof fn lemma_field_at(bits: Seq<bool>, at: nat, v: u64, n: nat)
    requires
        holds_at(bits, at, bits_of(v, n)),
        n <= 64,
        n < 64 ==> (v as nat) < pow2(n),
    ensures
        field(bits, at, n) == Some(v as nat),
{
    lemma_value_of_bits(v, n);
}

/// A code that was written is the code that is decoded.
pub proof fn lemma_decode_at(codes: Seq<PrefixCode>, bits: Seq<bool>, at: nat, s: int)
    requires
        prefix_free(codes),
        0 <= s < codes.len(),
        codes[s].length > 0,
        holds_at(bits, at, codes[s].bits()),
    ensures
        decode_symbol(codes, bits, at) == Ok::<(nat, nat), DeflateError>(
            (s as nat, (at + codes[s].length) as nat),
        ),
{
    reveal(decode_symbol);
    assert(matches_at(codes, bits, at, s));
    let found = choose|x: int| matches_at(codes, bits, at, x);
    lemma_match_unique(codes, bits, at, s, found);
}

/// The codes of the bytes of `chunk` from place `k` on.
pub open spec fn payload_from(codes: Seq<PrefixCode>, chunk: Seq<u8>, k: nat) -> Seq<bool>
    decreases chunk.len() - k,
{
    if k >= chunk.len() {
        Seq::empty()
    } else {
        codes[chunk[k as int] as int].bits() + payload_from(codes, chunk, k + 1)
    }
}

proof fn lemma_payload_from(codes: Seq<PrefixCode>, chunk: Seq<u8>, k: nat)
    requires
        k <= chunk.len(),
    ensures
        payload_bits(codes, chunk) == payload_bits(codes, chunk.take(k as int)) + payload_from(
            codes,
            chunk,
            k,
        ),
    decreases chunk.len() - k,
{
    if k == chunk.len() {
        assert(chunk.take(k as int) =~= chunk);
        assert(payload_bits(codes, chunk) + Seq::<bool>::empty() =~= payload_bits(codes, chunk));
    } else {
        lemma_payload_from(codes, chunk, k + 1);
        let longer = chunk.take(k as int + 1);
        assert(longer.drop_last() =~= chunk.take(k as int));
        let here = codes[chunk[k as int] as int].bits();
        assert((payload_bits(codes, chunk.take(k as int)) + here) + payload_from(
            codes,
            chunk,
            k + 1,
        ) =~= payload_bits(codes, chunk.take(k as int)) + (here + payload_from(
            codes,
            chunk,
            k + 1,
        )));
    }
}

/// The payload that was written is the payload that is read.
pub proof fn lemma_parse_payload(
    codes: Seq<PrefixCode>,
    chunk: Seq<u8>,
    k: nat,
    bits: Seq<bool>,
    at: nat,
)
    requires
        prefix_free(codes),
        codes.len() >= 257,
        codes[256].length >= 1,
        forall|j: int| k <= j < chunk.len() ==> codes[#[trigger] chunk[j] as int].length >= 1,
        k <= chunk.len(),
        holds_at(bits, at, payload_from(codes, chunk, k) + codes[256].bits()),
    ensures
        parse_payload(codes, bits, at, chunk.take(k as int)) == Ok::<(Seq<u8>, nat), DeflateError>(
            (chunk, (at + payload_from(codes, chunk, k).len() + codes[256].length) as nat),
        ),
    decreases chunk.len() - k,
{
    let end_code = codes[256].bits();
    if k == chunk.len() {
        assert(payload_from(codes, chunk, k) + end_code =~= end_code);
        lemma_decode_at(codes, bits, at, 256);
        assert(chunk.take(k as int) =~= chunk);
    } else {
        let b = chunk[k as int];
        let here = codes[b as int].bits();
        let rest = payload_from(codes, chunk, k + 1);
        assert(codes[b as int].length >= 1);
        assert(payload_from(codes, chunk, k) + end_code =~= here + (rest + end_code));
        lemma_holds_split(bits, at, here, rest + end_code);
        lemma_decode_at(codes, bits, at, b as int);
        lemma_parse_payload(codes, chunk, k + 1, bits, (at + here.len()) as nat);
        assert(chunk.take(k as int).push(b) =~= chunk.take(k as int + 1));
    }
}

/// The lengths of a run are all the same.
proof fn lemma_repeats_values(lengths: Seq<u8>, v: u8, j: int, x: int)
    requires
        0 <= j,
        0 <= x < repeats(lengths, v, j),
    ensures
        j + x < lengths.len(),
        lengths[j + x] == v,
    decreases x,
{
    if x > 0 {
        lemma_repeats_values(lengths, v, j + 1, x - 1);
    }
}

/// The lengths up to a run, and the run, are the lengths up to its end.
proof fn lemma_take_run(lengths: Seq<u8>, i: int, taken: int, v: u8)
    requires
        0 <= i,
        0 <= taken,
        i + taken <= lengths.len(),
        forall|k: int| i <= k < i + taken ==> #[trigger] lengths[k] == v,
    ensures
        lengths.take(i) + repeat_of(v, taken as nat) == lengths.take(i + taken),
{
    assert(lengths.take(i) + repeat_of(v, taken as nat) =~= lengths.take(i + taken));
}

/// Reading a length that stands for itself.
proof fn lemma_parse_plain(
    codes: Seq<PrefixCode>,
    bits: Seq<bool>,
    at: nat,
    count: nat,
    acc: Seq<u8>,
    v: u16,
)
    requires
        prefix_free(codes),
        codes.len() == 19,
        v <= 15,
        codes[v as int].length >= 1,
        holds_at(bits, at, codes[v as int].bits()),
        acc.len() < count,
    ensures
        parse_lengths(codes, bits, at, count, acc) == parse_lengths(
            codes,
            bits,
            (at + codes[v as int].length) as nat,
            count,
            acc.push(v as u8),
        ),
{
    lemma_decode_at(codes, bits, at, v as int);
}

/// Reading a symbol that stands for a run.
proof fn lemma_parse_coded(
    codes: Seq<PrefixCode>,
    bits: Seq<bool>,
    at: nat,
    count: nat,
    acc: Seq<u8>,
    symbol: u16,
    arg: u16,
)
    requires
        prefix_free(codes),
        codes.len() == 19,
        16 <= symbol <= 18,
        codes[symbol as int].length >= 1,
        arg < pow2(arg_bits(symbol)),
        holds_at(bits, at, codes[symbol as int].bits() + bits_of(arg as u64, arg_bits(symbol))),
        acc.len() < count,
        symbol == 16 ==> acc.len() > 0,
        acc.len() + arg + (if symbol == 18 { 11int } else { 3int }) <= count,
    ensures
        parse_lengths(codes, bits, at, count, acc) == parse_lengths(
            codes,
            bits,
            (at + codes[symbol as int].length + arg_bits(symbol)) as nat,
            count,
            acc + repeat_of(
                if symbol == 16 { acc.last() } else { 0u8 },
                (arg + (if symbol == 18 { 11int } else { 3int })) as nat,
            ),
        ),
{
    let code = codes[symbol as int].bits();
    let width = arg_bits(symbol);
    lemma_holds_split(bits, at, code, bits_of(arg as u64, width));
    lemma_decode_at(codes, bits, at, symbol as int);
    lemma_field_at(bits, (at + code.len()) as nat, arg as u64, width);
}

/// The lengths that were written, run-length coded, are the lengths that
/// are read.
#[verifier::rlimit(30)]
pub proof fn lemma_parse_rle(
    codes: Seq<PrefixCode>,
    lengths: Seq<u8>,
    i: nat,
    bits: Seq<bool>,
    at: nat,
)
    requires
        prefix_free(codes),
        codes.len() == 19,
        forall|s: int| 0 <= s < lengths.len() ==> #[trigger] lengths[s] <= 15,
        i <= lengths.len(),
        holds_at(bits, at, stream_bits(codes, rle_symbols(lengths, i as int))),
        forall|v: int|
            0 <= v < 19 && symbol_count(rle_symbols(lengths, i as int), v) >= 1 ==> (
            #[trigger] codes[v]).length >= 1,
    ensures
        parse_lengths(codes, bits, at, lengths.len(), lengths.take(i as int)) == Ok::<
            (Seq<u8>, nat),
            DeflateError,
        >((lengths, (at + stream_bits(codes, rle_symbols(lengths, i as int)).len()) as nat)),
    decreases lengths.len() - i,
{
    let count = lengths.len();
    let ii = i as int;
    let acc = lengths.take(i as int);
    let stream = rle_symbols(lengths, i as int);
    assert(pow2(2) == 4 && pow2(3) == 8 && pow2(7) == 128) by {
        lemma2_to64();
    }
    if i == count {
        assert(acc =~= lengths);
        assert(stream_bits(codes, stream) =~= Seq::<bool>::empty());
    } else {
        let v = lengths[i as int];
        let run = 1 + repeats(lengths, v, ii + 1);
        lemma_repeats_bound(lengths, v, ii + 1);
        assert forall|k: int| ii <= k < ii + run implies #[trigger] lengths[k] == v by {
            if k > ii {
                lemma_repeats_values(lengths, v, ii + 1, k - ii - 1);
            }
        }
        if v == 0 && run >= 3 {
            let symbol: u16 = if run <= 10 { 17 } else { 18 };
            let taken: nat = if run <= 10 { run } else if run < 138 { run } else { 138 };
            let arg = (taken - (if symbol == 18 { 11int } else { 3int })) as u16;
            let rest = rle_symbols(lengths, (i + taken) as int);
            assert(stream == seq![symbol, arg] + rest);
            assert forall|k: int|
                0 <= k < 19 && symbol_count(rest, k) >= 1 implies (#[trigger] codes[k]).length
                >= 1 by {
                lemma_stream_coded(codes, symbol, arg, rest, k);
            }
            lemma_stream_coded(codes, symbol, arg, rest, symbol as int);
            let code = codes[symbol as int].bits();
            let head = code + bits_of(arg as u64, arg_bits(symbol));
            lemma_holds_split(bits, at, head, stream_bits(codes, rest));
            lemma_parse_coded(codes, bits, at, count, acc, symbol, arg);
            lemma_take_run(lengths, i as int, taken as int, 0);
            lemma_parse_rle(codes, lengths, i + taken, bits, (at + head.len()) as nat);
        } else if run >= 4 {
            let taken: nat = if run < 7 { run } else { 7 };
            let arg = (taken - 4) as u16;
            let rest = rle_symbols(lengths, (i + taken) as int);
            let tail = seq![16u16, arg] + rest;
            assert(stream == seq![v as u16, 16u16, arg] + rest);
            assert(stream =~= seq![v as u16] + tail);
            assert forall|k: int|
                0 <= k < 19 && symbol_count(rest, k) >= 1 implies (#[trigger] codes[k]).length
                >= 1 by {
                lemma_stream_plain(codes, v as u16, tail, k);
                lemma_stream_coded(codes, 16, arg, rest, k);
            }
            lemma_stream_plain(codes, v as u16, tail, v as int);
            lemma_stream_plain(codes, v as u16, tail, 16);
            lemma_stream_coded(codes, 16, arg, rest, 16);
            let first = codes[v as int].bits();
            let second = codes[16].bits() + bits_of(arg as u64, 2);
            assert(stream_bits(codes, stream) =~= first + (second + stream_bits(codes, rest)));
            lemma_holds_split(bits, at, first, second + stream_bits(codes, rest));
            lemma_holds_split(bits, (at + first.len()) as nat, second, stream_bits(codes, rest));
            lemma_parse_plain(codes, bits, at, count, acc, v as u16);
            let one_more = acc.push(v);
            lemma_parse_coded(
                codes,
                bits,
                (at + first.len()) as nat,
                count,
                one_more,
                16,
                arg,
            );
            assert(one_more =~= lengths.take(ii + 1));
            assert(one_more + repeat_of(v, (taken - 1) as nat) =~= lengths.take(ii + taken));
            lemma_parse_rle(
                codes,
                lengths,
                i + taken,
                bits,
                (at + first.len() + second.len()) as nat,
            );
        } else {
            let rest = rle_symbols(lengths, ii + 1);
            assert(stream == seq![v as u16] + rest);
            assert forall|k: int|
                0 <= k < 19 && symbol_count(rest, k) >= 1 implies (#[trigger] codes[k]).length
                >= 1 by {
                lemma_stream_plain(codes, v as u16, rest, k);
            }
            lemma_stream_plain(codes, v as u16, rest, v as int);
            let first = codes[v as int].bits();
            lemma_holds_split(bits, at, first, stream_bits(codes, rest));
            lemma_parse_plain(codes, bits, at, count, acc, v as u16);
            assert(acc.push(v) =~= lengths.take(ii + 1));
            lemma_parse_rle(codes, lengths, i + 1, bits, (at + first.len()) as nat);
        }
    }
}

// ---------------------------------------------------------------------------
// The header

/// Where each symbol stands in the order in which the lengths of the
/// code-length codes are written.
spec fn order_place() -> Seq<int> {
    seq![3int, 17, 15, 13, 11, 9, 7, 5, 4, 6, 8, 10, 12, 14, 16, 18, 0, 1, 2]
}

/// The order holds every symbol once.
proof fn lemma_length_order()
    ensures
        length_order().len() == 19,
        forall|j: int| 0 <= j < 19 ==> 0 <= #[trigger] length_order()[j] < 19,
        forall|j: int| 0 <= j < 19 ==> order_place()[#[trigger] length_order()[j] as int] == j,
        forall|s: int|
            0 <= s < 19 ==> 0 <= #[trigger] order_place()[s] < 19 && length_order()[order_place()[s]]
                == s,
{
}

/// The lengths that are not written are 0.
proof fn lemma_trimmed(lengths: Seq<u8>, k: nat)
    requires
        k <= 19,
    ensures
        4 <= trimmed_count(lengths, k),
        k >= 4 ==> trimmed_count(lengths, k) <= k,
        forall|j: int|
            trimmed_count(lengths, k) <= j < k ==> lengths[#[trigger] length_order()[j] as int]
                == 0,
    decreases k,
{
    if k > 4 && lengths[length_order()[k - 1] as int] == 0 {
        lemma_trimmed(lengths, (k - 1) as nat);
    }
}

proof fn lemma_order_bits_len(lengths: Seq<u8>, count: nat, i: nat)
    requires
        i <= count,
    ensures
        order_bits(lengths, count, i).len() == 3 * (count - i),
    decreases count - i,
{
    if i < count {
        lemma_order_bits_len(lengths, count, i + 1);
    }
}

/// The lengths of the code-length codes that were written are those that
/// are read.
proof fn lemma_order_lengths(
    lengths: Seq<u8>,
    count: nat,
    bits: Seq<bool>,
    at: nat,
    i: nat,
    acc: Seq<u8>,
)
    requires
        lengths.len() == 19,
        acc.len() == 19,
        forall|s: int| 0 <= s < 19 ==> #[trigger] lengths[s] <= 7,
        i <= count <= 19,
        holds_at(bits, (at + 3 * i) as nat, order_bits(lengths, count, i)),
        forall|s: int|
            0 <= s < 19 ==> #[trigger] acc[s] == (if order_place()[s] < i {
                lengths[s]
            } else {
                0u8
            }),
        forall|j: int| count <= j < 19 ==> lengths[#[trigger] length_order()[j] as int] == 0,
    ensures
        order_lengths(bits, at, count, i, acc) == lengths,
    decreases count - i,
{
    lemma_length_order();
    if i >= count {
        assert forall|s: int| 0 <= s < 19 implies acc[s] == lengths[s] by {
            let j = order_place()[s];
            if j >= count {
                assert(lengths[length_order()[j] as int] == 0);
            }
        }
        assert(acc =~= lengths);
    } else {
        let symbol = length_order()[i as int] as int;
        let here = bits_of(lengths[symbol] as u64, 3);
        let rest = order_bits(lengths, count, i + 1);
        lemma_holds_split(bits, (at + 3 * i) as nat, here, rest);
        assert(pow2(3) == 8) by {
            lemma2_to64();
        }
        lemma_field_at(bits, (at + 3 * i) as nat, lengths[symbol] as u64, 3);
        let next = acc.update(symbol, lengths[symbol]);
        assert forall|s: int| 0 <= s < 19 implies #[trigger] next[s] == (if order_place()[s] < i
            + 1 {
            lengths[s]
        } else {
            0u8
        }) by {
            if s != symbol {
                assert(order_place()[s] != i);
            }
        }
        lemma_order_lengths(lengths, count, bits, at, i + 1, next);
    }
}

/// A run-length coding has at most three numbers for each length.
proof fn lemma_rle_len(lengths: Seq<u8>, i: int)
    requires
        0 <= i <= lengths.len(),
    ensures
        rle_symbols(lengths, i).len() <= 3 * (lengths.len() - i),
    decreases lengths.len() - i,
{
    if i < lengths.len() {
        let v = lengths[i];
        let run = 1 + repeats(lengths, v, i + 1);
        lemma_repeats_bound(lengths, v, i + 1);
        if v == 0 && run >= 3 {
            if run <= 10 {
                lemma_rle_len(lengths, i + run);
            } else {
                let taken = if run < 138 { run } else { 138 };
                lemma_rle_len(lengths, i + taken);
            }
        } else if run >= 4 {
            let taken = if run < 7 { run } else { 7 };
            lemma_rle_len(lengths, i + taken);
        } else {
            lemma_rle_len(lengths, i + 1);
        }
    }
}

proof fn lemma_symbol_count_len(stream: Seq<u16>, symbol: int)
    ensures
        symbol_count(stream, symbol) <= stream.len(),
    decreases stream.len(),
{
    if stream.len() > 0 {
        lemma_symbol_count_len(stream.skip(item_len(stream)), symbol);
    }
}

/// What holds of the lengths that package-merge gives under a limit that
/// allows a code for every symbol.
pub proof fn lemma_limited(freqs: Seq<u32>, max_length: nat)
    requires
        freqs.len() <= usize::MAX,
        1 <= max_length <= 31,
        freqs.len() <= pow2(max_length),
    ensures
        limited_lengths(freqs, max_length).len() == freqs.len(),
        kraft_holds(byte_values(limited_lengths(freqs, max_length)), max_length),
        forall|s: int|
            0 <= s < freqs.len() ==> #[trigger] limited_lengths(freqs, max_length)[s]
                <= max_length,
        forall|s: int|
            0 <= s < freqs.len() ==> (freqs[s] != 0 <==> #[trigger] limited_lengths(
                freqs,
                max_length,
            )[s] >= 1),
{
    lemma_package_merge_kraft(freqs, max_length);
    let given = spec_package_merge(freqs, max_length)->Ok_0;
    let lengths = limited_lengths(freqs, max_length);
    assert(byte_values(lengths) =~= given);
}

/// The header that was written is the header that is read.
pub proof fn lemma_parse_header(literals: Seq<u8>, distances: Seq<u8>, bits: Seq<bool>, at: nat)
    requires
        257 <= literals.len() <= 286,
        1 <= distances.len() <= 30,
        forall|s: int| 0 <= s < literals.len() ==> #[trigger] literals[s] <= 15,
        forall|s: int| 0 <= s < distances.len() ==> #[trigger] distances[s] <= 15,
        holds_at(bits, at, header_bits(literals, distances)),
    ensures
        parse_header(bits, at) == Ok::<(Seq<u8>, nat), DeflateError>(
            (literals, (at + header_bits(literals, distances).len()) as nat),
        ),
{
    let literal_stream = table_symbols(literals);
    let distance_stream = table_symbols(distances);
    let freqs = length_freqs(literal_stream, distance_stream);
    let lengths = limited_lengths(freqs, 7);
    let codes = canonical_codes(lengths);
    let count = trimmed_count(lengths, 19);
    assert(pow2(4) == 16 && pow2(5) == 32 && pow2(7) == 128) by {
        lemma2_to64();
    }
    lemma_limited(freqs, 7);
    lemma_trimmed(lengths, 19);
    lemma_order_bits_len(lengths, count, 0);
    lemma_length_order();
    // the parts of the header
    let a = bits_of((literals.len() - 257) as u64, 5);
    let b = bits_of((distances.len() - 1) as u64, 5);
    let c = bits_of((count - 4) as u64, 4);
    let d = order_bits(lengths, count, 0);
    let e = stream_bits(codes, literal_stream);
    let f = stream_bits(codes, distance_stream);
    lemma_holds_split(bits, at, a + b + c + d + e, f);
    lemma_holds_split(bits, at, a + b + c + d, e);
    lemma_holds_split(bits, at, a + b + c, d);
    lemma_holds_split(bits, at, a + b, c);
    lemma_holds_split(bits, at, a, b);
    lemma_field_at(bits, at, (literals.len() - 257) as u64, 5);
    lemma_field_at(bits, at + 5, (distances.len() - 1) as u64, 5);
    lemma_field_at(bits, at + 10, (count - 4) as u64, 4);
    // the code-length code
    let none = repeat_of(0, 19);
    lemma_order_lengths(lengths, count, bits, at + 14, 0, none);
    lemma_canonical_prefix_free(lengths, 7);
    // every symbol of the two codings has a code
    lemma_rle_len(literals, 0);
    lemma_rle_len(distances, 0);
    assert forall|v: int|
        0 <= v < 19 && (symbol_count(literal_stream, v) >= 1 || symbol_count(distance_stream, v)
            >= 1) implies (#[trigger] codes[v]).length >= 1 by {
        lemma_symbol_count_len(literal_stream, v);
        lemma_symbol_count_len(distance_stream, v);
        assert(freqs[v] == symbol_count(literal_stream, v) + symbol_count(distance_stream, v));
        assert(codes[v].length == lengths[v]);
    }
    let start = (at + 14 + 3 * count) as nat;
    assert(literals.take(0) =~= Seq::<u8>::empty());
    assert(distances.take(0) =~= Seq::<u8>::empty());
    lemma_parse_rle(codes, literals, 0, bits, start);
    lemma_parse_rle(codes, distances, 0, bits, (start + e.len()) as nat);
}

// ---------------------------------------------------------------------------
// Blocks and streams

proof fn lemma_occurrences(data: Seq<u8>, j: int)
    requires
        0 <= j < data.len(),
    ensures
        1 <= occurrences(data, data[j] as int) <= data.len(),
    decreases data.len(),
{
    lemma_occurrences_bound(data, data[j] as int);
    if j < data.len() - 1 {
        lemma_occurrences(data.drop_last(), j);
    }
}

pub proof fn lemma_occurrences_bound(data: Seq<u8>, byte: int)
    ensures
        occurrences(data, byte) <= data.len(),
    decreases data.len(),
{
    if data.len() > 0 {
        lemma_occurrences_bound(data.drop_last(), byte);
    }
}

proof fn bv_block_start()
    by (bit_vector)
    ensures
        (5u64 >> 0) & 1 == 1,
        (5u64 >> 1) & 1 == 0,
        (5u64 >> 2) & 1 == 1,
        (4u64 >> 0) & 1 == 0,
        (4u64 >> 1) & 1 == 0,
        (4u64 >> 2) & 1 == 1,
{
}

/// The three bits at the start of a block: whether it is the last, and the
/// block type 2.
proof fn lemma_block_start(bits: Seq<bool>, at: nat, last: bool)
    requires
        holds_at(bits, at, bits_of(if last { 5u64 } else { 4u64 }, 3)),
    ensures
        field(bits, at, 1) == Some(if last { 1nat } else { 0nat }),
        field(bits, at + 1, 2) == Some(2nat),
{
    bv_block_start();
    let start = bits_of(if last { 5u64 } else { 4u64 }, 3);
    let whole = bits.subrange(at as int, (at + 3) as int);
    assert(whole == start);
    let one = bits.subrange(at as int, (at + 1) as int);
    let two = bits.subrange((at + 1) as int, (at + 3) as int);
    assert(one =~= seq![last]) by {
        assert(one[0] == whole[0]);
    }
    assert(two =~= seq![false, true]) by {
        assert(two[0] == whole[1]);
        assert(two[1] == whole[2]);
    }
    reveal_with_fuel(value_of, 3);
    assert(seq![false, true].skip(1) =~= seq![true]);
    assert(seq![true].skip(1) =~= Seq::<bool>::empty());
    assert(seq![last].skip(1) =~= Seq::<bool>::empty());
}

/// The block that was written is the block that is read.
#[verifier::rlimit(30)]
pub proof fn lemma_parse_block(chunk: Seq<u8>, last: bool, bits: Seq<bool>, at: nat)
    requires
        1 <= chunk.len() <= u32::MAX,
        holds_at(bits, at, block_bits(chunk, last)),
    ensures
        parse_block(bits, at) == Ok::<(Seq<u8>, bool, nat), DeflateError>(
            (chunk, last, (at + block_bits(chunk, last).len()) as nat),
        ),
        block_bits(chunk, last).len() >= 3,
{
    let freqs = literal_freqs(chunk);
    let lengths = block_lengths(chunk);
    let distances = distance_lengths();
    let codes = canonical_codes(lengths);
    assert(pow2(15) == 32768) by {
        lemma2_to64();
    }
    lemma_limited(freqs, 15);
    lemma_limited(seq![0u32], 15);
    lemma_canonical_prefix_free(lengths, 15);
    let start = bits_of(if last { 5u64 } else { 4u64 }, 3);
    let header = header_bits(lengths, distances);
    let payload = payload_bits(codes, chunk);
    let end = codes[256].bits();
    lemma_holds_split(bits, at, start + header + payload, end);
    lemma_holds_split(bits, at, start + header, payload);
    lemma_holds_split(bits, at, start, header);
    lemma_block_start(bits, at, last);
    lemma_parse_header(lengths, distances, bits, at + 3);
    // every byte of the chunk and the end of the block have a code
    assert forall|j: int| 0 <= j < chunk.len() implies codes[#[trigger] chunk[j] as int].length
        >= 1 by {
        lemma_occurrences(chunk, j);
        let b = chunk[j] as int;
        assert(freqs[b] == occurrences(chunk, b));
        assert(codes[b].length == lengths[b]);
    }
    assert(codes[256].length >= 1) by {
        assert(freqs[256] == 1);
        assert(codes[256].length == lengths[256]);
    }
    lemma_payload_from(codes, chunk, 0);
    assert(chunk.take(0) =~= Seq::<u8>::empty());
    assert(payload =~= payload_from(codes, chunk, 0));
    let begin = (at + 3 + header.len()) as nat;
    assert(holds_at(bits, begin, payload + end)) by {
        assert(bits.subrange(begin as int, (begin + payload.len() + end.len()) as int)
            =~= bits.subrange(begin as int, (begin + payload.len()) as int) + bits.subrange(
            (begin + payload.len()) as int,
            (begin + payload.len() + end.len()) as int,
        ));
    }
    lemma_parse_payload(codes, chunk, 0, bits, begin);
}

/// The blocks that were written are the blocks that are read.
pub proof fn lemma_parse_stream(
    data: Seq<u8>,
    block_size: nat,
    bits: Seq<bool>,
    at: nat,
    acc: Seq<u8>,
)
    requires
        data.len() >= 1,
        1 <= block_size <= u32::MAX,
        holds_at(bits, at, stream_of(data, block_size)),
    ensures
        parse_stream(bits, at, acc) == Ok::<(Seq<u8>, nat), DeflateError>(
            (acc + data, (at + stream_of(data, block_size).len()) as nat),
        ),
    decreases data.len(),
{
    if data.len() <= block_size {
        lemma_parse_block(data, true, bits, at);
    } else {
        let chunk = data.take(block_size as int);
        let rest = data.skip(block_size as int);
        let first = block_bits(chunk, false);
        lemma_holds_split(bits, at, first, stream_of(rest, block_size));
        lemma_parse_block(chunk, false, bits, at);
        lemma_parse_stream(rest, block_size, bits, (at + first.len()) as nat, acc + chunk);
        assert((acc + chunk) + rest =~= acc + data);
    }
}

/// The bits of the bytes that hold `bits` are `bits`, filled up with clear
/// bits to a whole byte.
pub proof fn lemma_pack_bits(bits: Seq<bool>)
    ensures
        bytes_bits(pack(bits)) == bits + zeros(((8 - bits.len() % 8) % 8) as nat),
{
    let padded = bits + zeros(((8 - bits.len() % 8) % 8) as nat);
    let bytes = pack(bits);
    assert(padded.len() == 8 * bytes.len());
    assert forall|j: int| 0 <= j < padded.len() implies bytes_bits(bytes)[j] == padded[j] by {
        let k = j / 8;
        let part = padded.subrange(8 * k, 8 * k + 8);
        crate::bits::lemma_value_of_bound(part);
        assert(pow2(8) == 256) by {
            lemma2_to64();
        }
        let x = value_of(part) as u8;
        crate::bits::lemma_bits_of_value(part, x as u64);
        assert(bits_of(x as u64, 8)[j % 8] == part[j % 8]);
    }
    assert(bytes_bits(bytes) =~= padded);
}

/// Decompressing what was compressed gives the bytes back, and takes up all
/// of the compressed bytes.
pub proof fn lemma_round_trip(data: Seq<u8>, block_size: nat)
    requires
        data.len() >= 1,
        1 <= block_size <= u32::MAX,
    ensures
        spec_decompress(spec_compress(data, block_size)) == Ok::<(Seq<u8>, nat), DeflateError>(
            (data, spec_compress(data, block_size).len()),
        ),
{
    let stream = stream_of(data, block_size);
    let packed = spec_compress(data, block_size);
    let bits = bytes_bits(packed);
    lemma_pack_bits(stream);
    assert(bits.subrange(0, stream.len() as int) =~= stream);
    lemma_parse_stream(data, block_size, bits, 0, Seq::empty());
    assert(Seq::<u8>::empty() + data =~= data);
}

} // verus!
