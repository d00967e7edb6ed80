//! Huffman codes: tables that map symbols to prefix codes, and trees that
//! decode them bit by bit.

use vstd::prelude::*;
use vstd::arithmetic::power2::{pow2, lemma2_to64};
use vstd::bits::lemma_u32_shr_is_div;
use crate::bits::{bits_of, fits, lemma_fits_pow2};
use crate::canonical::{
    nat_bit, count_len, first_code, canonical_value, canonical_bits, lemma_nat_bit_mod,
};
use crate::kraft::kraft_holds;
use crate::package_merge::{package_merge, spec_package_merge, byte_values, PackageMergeError};
use crate::package_merge_proofs::lemma_package_merge_kraft;
use crate::reverse_bits::ReverseBits;
pub use crate::tree::{HuffmanTree, WalkIterator};

verus! {

/// A code of up to 32 bits. Bit 0 of `code` goes first on the wire; a length
/// of 0 marks a symbol that has no code.
#[derive(Clone, Copy, Debug)]
pub struct PrefixCode {
    pub code: u32,
    pub length: u8,
}

/// The codes of an alphabet, by symbol.
#[derive(Debug)]
pub struct HuffmanTable {
    pub codes: Vec<PrefixCode>,
}

impl Default for PrefixCode {
    fn default() -> (r: Self)
        ensures
            r.code == 0,
            r.length == 0,
    {
        PrefixCode { code: 0, length: 0 }
    }
}

impl Default for HuffmanTable {
    fn default() -> (r: Self)
        ensures
            r.codes@.len() == 0,
    {
        HuffmanTable { codes: Vec::new() }
    }
}

proof fn bv_append_bit(code: u32, bit: u32, length: u32, i: u64)
    by (bit_vector)
    requires
        length < 32,
        bit <= 1,
        i < 64,
        (code as u64) >> (length as u64) == 0,
    ensures
        (((code | (bit << length)) as u64 >> i) & 1 == 1) == (if i < length {
            ((code as u64) >> i) & 1 == 1
        } else {
            i == length && bit == 1
        }),
        ((code | (bit << length)) as u64) >> ((length + 1) as u64) == 0,
{
}

proof fn bv_stored_bits(rev: u32, l: u32, i: u32)
    by (bit_vector)
    requires
        1 <= l <= 32,
        i < l,
    ensures
        ((((rev >> ((32 - l) as u32)) as u64) >> (i as u64)) & 1 == 1) == ((rev >> ((32 - l
            + i) as u32)) & 1 == 1),
        ((rev >> ((32 - l) as u32)) as u64) >> (l as u64) == 0,
{
}

proof fn bv_parity(y: u32)
    by (bit_vector)
    ensures
        (y & 1 == 1) == (y % 2 == 1),
{
}

/// A bit of a word is the bit of the number that it holds.
proof fn lemma_u32_bit(v: u32, k: nat)
    requires
        k < 32,
    ensures
        v.bit(k) == nat_bit(v as nat, k),
{
    lemma_u32_shr_is_div(v, k as u32);
    bv_parity(v >> (k as u32));
}

/// The low bits of a code's number, reversed, are the code in wire order.
proof fn lemma_stored_code(value: u32, reversed: u32, number: nat, length: u8)
    requires
        1 <= length <= 31,
        value == number % 0x1_0000_0000,
        forall|i: nat| i < 32 ==> reversed.bit(i) == value.bit((32 - 1 - i) as nat),
    ensures
        ({
            let code = PrefixCode { code: reversed >> ((32 - length) as u32), length };
            &&& code.well_formed()
            &&& forall|i: int|
                0 <= i < length ==> #[trigger] code.bits()[i] == nat_bit(
                    number,
                    (length - 1 - i) as nat,
                )
        }),
{
    let ln = length as nat;
    let code = PrefixCode { code: reversed >> ((32 - length) as u32), length };
    assert(pow2(32) == 0x1_0000_0000) by {
        lemma2_to64();
    }
    bv_stored_bits(reversed, length as u32, 0);
    assert forall|i: int| 0 <= i < ln implies #[trigger] code.bits()[i] == nat_bit(
        number,
        (ln - 1 - i) as nat,
    ) by {
        bv_stored_bits(reversed, length as u32, i as u32);
        let high = (32 - ln + i) as nat;
        assert(reversed.bit(high) == value.bit((32 - 1 - high) as nat));
        lemma_u32_bit(value, (ln - 1 - i) as nat);
        lemma_nat_bit_mod(number, (ln - 1 - i) as nat, 32);
    }
}

/// The sum of two words modulo `2^32`.
fn add_mod32(a: u32, b: u32) -> (r: u32)
    ensures
        r == (a + b) % 0x1_0000_0000,
{
    ((a as u64 + b as u64) % 0x1_0000_0000) as u32
}

impl PrefixCode {
    /// The bits of the code in wire order.
    pub open spec fn bits(self) -> Seq<bool> {
        bits_of(self.code as u64, self.length as nat)
    }

    /// Whether `code` has no bit set at `length` or above.
    pub open spec fn well_formed(self) -> bool {
        self.length <= 32 && fits(self.code as u64, self.length as nat)
    }

    /// The code with `bit` added at its end.
    pub open spec fn with_bit(self, bit: bool) -> PrefixCode {
        PrefixCode {
            code: self.code | ((if bit { 1u32 } else { 0u32 }) << self.length),
            length: (self.length + 1) as u8,
        }
    }

    /// The code with one more bit at its end.
    pub fn update(prefix_code: PrefixCode, bit: bool) -> (r: PrefixCode)
        requires
            prefix_code.length < 32,
        ensures
            r == prefix_code.with_bit(bit),
            prefix_code.well_formed() ==> r.well_formed() && r.bits() == prefix_code.bits().push(
                bit,
            ),
    {
        let b: u32 = if bit { 1 } else { 0 };
        let r = PrefixCode {
            code: prefix_code.code | (b << prefix_code.length),
            length: prefix_code.length + 1,
        };
        proof {
            if prefix_code.well_formed() {
                let l = prefix_code.length as nat;
                bv_append_bit(prefix_code.code, b, l as u32, 0);
                assert forall|i: int| 0 <= i < l + 1 implies r.bits()[i] == prefix_code.bits().push(
                    bit,
                )[i] by {
                    bv_append_bit(prefix_code.code, b, l as u32, i as u64);
                }
                assert(r.bits() =~= prefix_code.bits().push(bit));
            }
        }
        r
    }
}

/// The lengths of a sequence of codes.
pub open spec fn code_lengths(codes: Seq<PrefixCode>) -> Seq<u8> {
    Seq::new(codes.len(), |s: int| codes[s].length)
}

/// Whether `codes` are the canonical codes of their lengths.
pub open spec fn canonical(codes: Seq<PrefixCode>) -> bool {
    forall|s: int|
        0 <= s < codes.len() ==> (#[trigger] codes[s]).well_formed() && codes[s].bits()
            == canonical_bits(code_lengths(codes), s)
}

/// The counts of the lengths 0 to 31 among `codes`, each modulo `2^32`.
fn count_lengths(codes: &Vec<PrefixCode>) -> (counts: Vec<u32>)
    requires
        forall|s: int| 0 <= s < codes@.len() ==> (#[trigger] codes@[s]).length <= 31,
    ensures
        counts@.len() == 32,
        forall|l: int|
            0 <= l < 32 ==> counts@[l] == count_len(code_lengths(codes@), l as nat, codes@.len())
                % 0x1_0000_0000,
{
    let ghost lengths = code_lengths(codes@);
    let mut counts: Vec<u32> = Vec::new();
    let mut l: usize = 0;
    while l < 32
        invariant
            l <= 32,
            counts@.len() == l,
            forall|x: int| 0 <= x < l ==> counts@[x] == 0,
        decreases 32 - l,
    {
        counts.push(0);
        l += 1;
    }
    let mut s: usize = 0;
    while s < codes.len()
        invariant
            s <= codes@.len(),
            lengths == code_lengths(codes@),
            counts@.len() == 32,
            forall|x: int| 0 <= x < codes@.len() ==> (#[trigger] codes@[x]).length <= 31,
            forall|x: int|
                0 <= x < 32 ==> counts@[x] == count_len(lengths, x as nat, s as nat)
                    % 0x1_0000_0000,
        decreases codes.len() - s,
    {
        let l = codes[s].length as usize;
        let c = counts[l];
        counts[l] = add_mod32(c, 1);
        proof {
            assert(lengths[s as int] == codes@[s as int].length);
        }
        s += 1;
    }
    counts
}

impl HuffmanTable {
    /// The lengths of the codes, by symbol.
    pub open spec fn lengths(self) -> Seq<u8> {
        code_lengths(self.codes@)
    }

    /// The canonical codes for the given lengths.
    pub fn from_lengths(lengths: &[u8]) -> (table: Self)
        requires
            forall|s: int| 0 <= s < lengths@.len() ==> #[trigger] lengths@[s] <= 31,
        ensures
            table.lengths() == lengths@,
            canonical(table.codes@),
    {
        let mut codes: Vec<PrefixCode> = Vec::new();
        let mut s: usize = 0;
        while s < lengths.len()
            invariant
                s <= lengths@.len(),
                codes@.len() == s,
                forall|x: int| 0 <= x < lengths@.len() ==> #[trigger] lengths@[x] <= 31,
                forall|x: int|
                    0 <= x < s ==> (#[trigger] codes@[x]).length == lengths@[x] && codes@[x].length
                        <= 31,
            decreases lengths.len() - s,
        {
            let length = lengths[s];
            let ghost before = codes@;
            codes.push(PrefixCode { code: 0, length });
            proof {
                assert(length == lengths@[s as int]);
                assert(length <= 31);
                assert(codes@[s as int].length == length);
                assert forall|x: int| 0 <= x < s implies (#[trigger] codes@[x]).length
                    == lengths@[x] && codes@[x].length <= 31 by {
                    assert(codes@[x] == before[x]);
                }
            }
            s += 1;
        }
        let mut table = HuffmanTable { codes };
        proof {
            assert(table.lengths() =~= lengths@);
        }
        let counts = count_lengths(&table.codes);
        table.canonicalize_impl(&counts);
        table
    }

    /// Gives every symbol the canonical code of its length.
    pub fn canonicalize(&mut self)
        requires
            forall|s: int|
                0 <= s < old(self).codes@.len() ==> (#[trigger] old(self).codes@[s]).length <= 31,
        ensures
            final(self).lengths() == old(self).lengths(),
            canonical(final(self).codes@),
    {
        let counts = count_lengths(&self.codes);
        self.canonicalize_impl(&counts)
    }

    /// Assigns the codes, given how often each length occurs.
    fn canonicalize_impl(&mut self, lengths_count: &Vec<u32>)
        requires
            forall|s: int|
                0 <= s < old(self).codes@.len() ==> (#[trigger] old(self).codes@[s]).length <= 31,
            lengths_count@.len() == 32,
            forall|l: int|
                0 <= l < 32 ==> lengths_count@[l] == count_len(
                    old(self).lengths(),
                    l as nat,
                    old(self).codes@.len(),
                ) % 0x1_0000_0000,
        ensures
            final(self).lengths() == old(self).lengths(),
            canonical(final(self).codes@),
    {
        let ghost lengths = self.lengths();
        let ghost size = self.codes@.len();
        // The first code of each length, modulo 2^32.
        let mut next_code: Vec<u32> = Vec::new();
        next_code.push(0);
        next_code.push(0);
        let mut l: usize = 1;
        while l < 31
            invariant
                1 <= l <= 31,
                next_code@.len() == l + 1,
                lengths_count@.len() == 32,
                lengths.len() == size,
                forall|x: int|
                    0 <= x < 32 ==> lengths_count@[x] == count_len(lengths, x as nat, size)
                        % 0x1_0000_0000,
                forall|x: int|
                    1 <= x <= l ==> next_code@[x] == first_code(lengths, x as nat) % 0x1_0000_0000,
            decreases 31 - l,
        {
            let sum = add_mod32(next_code[l], lengths_count[l]);
            let doubled = add_mod32(sum, sum);
            proof {
                let f = first_code(lengths, l as nat) as int;
                let c = count_len(lengths, l as nat, size) as int;
                vstd::arithmetic::div_mod::lemma_add_mod_noop(f, c, 0x1_0000_0000);
                vstd::arithmetic::div_mod::lemma_add_mod_noop(f + c, f + c, 0x1_0000_0000);
                assert(lengths.len() == size);
                assert(first_code(lengths, (l + 1) as nat) == 2 * (f + c));
                assert(sum == (f + c) % 0x1_0000_0000);
                assert(doubled == (2 * (f + c)) % 0x1_0000_0000);
            }
            next_code.push(doubled);
            l += 1;
        }
        let mut s: usize = 0;
        while s < self.codes.len()
            invariant
                s <= size == self.codes@.len(),
                self.lengths() == lengths,
                forall|x: int| 0 <= x < size ==> #[trigger] lengths[x] <= 31,
                next_code@.len() == 32,
                forall|x: int|
                    1 <= x < 32 ==> next_code@[x] == (first_code(lengths, x as nat) + count_len(
                        lengths,
                        x as nat,
                        s as nat,
                    )) % 0x1_0000_0000,
                forall|x: int|
                    0 <= x < s ==> (#[trigger] self.codes@[x]).well_formed() && self.codes@[x].bits()
                        == canonical_bits(lengths, x),
            decreases size - s,
        {
            let length = self.codes[s].length;
            proof {
                assert(lengths[s as int] == self.codes@[s as int].length);
            }
            let ghost before = self.codes@;
            if length != 0 {
                let l = length as usize;
                let value = next_code[l];
                let reversed = ReverseBits::reverse_bits(value);
                let stored = reversed >> (32 - length as u32);
                self.codes[s] = PrefixCode { code: stored, length };
                next_code[l] = add_mod32(value, 1);
                proof {
                    let number = canonical_value(lengths, s as int);
                    let ln = length as nat;
                    lemma_stored_code(value, reversed, number, length);
                    let code = self.codes@[s as int];
                    assert(code.bits() =~= canonical_bits(lengths, s as int));
                    let f = first_code(lengths, ln) as int;
                    let c = count_len(lengths, ln, s as nat) as int;
                    vstd::arithmetic::div_mod::lemma_add_mod_noop(f + c, 1, 0x1_0000_0000);
                }
            } else {
                self.codes[s] = PrefixCode { code: 0, length: 0 };
                proof {
                    crate::bits::lemma_zero_bits(0);
                    assert(self.codes@[s as int].bits() =~= canonical_bits(lengths, s as int));
                }
            }
            proof {
                assert(self.lengths() =~= lengths);
                assert forall|x: int| 0 <= x < s implies (#[trigger] self.codes@[x]).well_formed()
                    && self.codes@[x].bits() == canonical_bits(lengths, x) by {
                    assert(self.codes@[x] == before[x]);
                }
            }
            s += 1;
        }
    }

    /// The canonical codes of the lengths that package-merge gives to
    /// `freqs` under the limit `max_length`.
    pub fn build_length_limited(freqs: &[u32], max_length: usize) -> (r: Result<
        Self,
        PackageMergeError,
    >)
        requires
            max_length <= 31,
            2 * freqs@.len() * max_length <= usize::MAX,
        ensures
            match r {
                Ok(table) => spec_package_merge(freqs@, max_length as nat) == Ok::<
                    Seq<nat>,
                    PackageMergeError,
                >(byte_values(table.lengths())) && canonical(table.codes@),
                Err(e) => spec_package_merge(freqs@, max_length as nat) == Err::<
                    Seq<nat>,
                    PackageMergeError,
                >(e),
            },
    {
        let size = freqs.len();
        match package_merge(freqs, max_length) {
            Ok(lengths) => {
                proof {
                    let found = byte_values(lengths@);
                    assert(pow2(0) == 1 && pow2(1) == 2) by {
                        lemma2_to64();
                    }
                    crate::package_merge::lemma_count_nonzero_bound(freqs@);
                    if max_length >= 1 {
                        lemma_package_merge_kraft(freqs@, max_length as nat);
                    }
                    let given = spec_package_merge(freqs@, max_length as nat);
                    assert(given->Ok_0 == found);
                    if max_length >= 1 {
                        assert(kraft_holds(found, max_length as nat));
                    } else {
                        assert(found == crate::package_merge::presence(freqs@, 1));
                    }
                    assert forall|s: int| 0 <= s < lengths@.len() implies #[trigger] lengths@[s]
                        <= 31 by {
                        assert(found[s] == lengths@[s]);
                        assert(found[s] <= 31);
                    }
                }
                Ok(Self::from_lengths(lengths.as_slice()))
            },
            Err(e) => Err(e),
        }
    }

    /// The code of `symbol`.
    pub fn code(&self, symbol: usize) -> (r: &PrefixCode)
        requires
            symbol < self.codes@.len(),
        ensures
            *r == self.codes@[symbol as int],
    {
        &self.codes[symbol]
    }
}

/// Giving a table its canonical codes a second time changes nothing: the
/// codes depend on the lengths alone, and those stay.
pub proof fn lemma_canonicalize_idempotent(once: Seq<PrefixCode>, twice: Seq<PrefixCode>)
    requires
        canonical(once),
        canonical(twice),
        code_lengths(twice) == code_lengths(once),
    ensures
        twice == once,
{
    assert(twice.len() == code_lengths(twice).len());
    assert(once.len() == code_lengths(once).len());
    assert forall|s: int| 0 <= s < once.len() implies twice[s] == once[s] by {
        let a = once[s];
        let b = twice[s];
        assert(a.well_formed() && b.well_formed());
        assert(code_lengths(once)[s] == a.length);
        assert(code_lengths(twice)[s] == b.length);
        assert(a.bits() == b.bits());
        lemma_fits_pow2(a.code as u64, a.length as nat);
        lemma_fits_pow2(b.code as u64, b.length as nat);
        crate::bits::lemma_value_of_bits(a.code as u64, a.length as nat);
        crate::bits::lemma_value_of_bits(b.code as u64, b.length as nat);
    }
    assert(twice =~= once);
}

} // verus!
