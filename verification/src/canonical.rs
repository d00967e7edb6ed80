//! Canonical prefix codes: the codes that a vector of code lengths stands for.
//!
//! Codes are numbered by length and, within a length, by symbol: the first
//! code of the shortest length is 0, each next code of a length is one more,
//! and the first code of the next length is one more with a 0 bit appended.
//! A code goes on the wire from its most significant bit.

use vstd::prelude::*;
use vstd::arithmetic::power2::{pow2, lemma_pow2_pos, lemma_pow2_adds, lemma_pow2_unfold};
use vstd::arithmetic::div_mod::{
    lemma_mod_breakdown, lemma_mod_mod, lemma_fundamental_div_mod_converse, lemma_mod_bound,
    lemma_div_denominator, lemma_small_mod,
};
use crate::kraft::{kraft_sum, kraft_term, kraft_holds};
use crate::package_merge::byte_values;

verus! {

/// Whether bit `k` of the number `x` is set.
pub open spec fn nat_bit(x: nat, k: nat) -> bool {
    (x / pow2(k)) % 2 == 1
}

/// How many of the first `n` symbols have length `l`.
pub open spec fn count_len(lengths: Seq<u8>, l: nat, n: nat) -> nat
    decreases n,
{
    if n == 0 {
        0
    } else {
        count_len(lengths, l, (n - 1) as nat) + (if n <= lengths.len() && lengths[n - 1] == l {
            1nat
        } else {
            0nat
        })
    }
}

/// The first code of length `l`, as a number.
pub open spec fn first_code(lengths: Seq<u8>, l: nat) -> nat
    decreases l,
{
    if l <= 1 {
        0
    } else {
        2 * (first_code(lengths, (l - 1) as nat) + count_len(
            lengths,
            (l - 1) as nat,
            lengths.len(),
        ))
    }
}

/// The code of symbol `s`, as a number: the first code of its length plus
/// the count of earlier symbols of that length.
pub open spec fn canonical_value(lengths: Seq<u8>, s: int) -> nat {
    first_code(lengths, lengths[s] as nat) + count_len(lengths, lengths[s] as nat, s as nat)
}

/// The code of symbol `s` in wire order: the low `lengths[s]` bits of its
/// number, most significant first. A symbol of length 0 has no bits.
pub open spec fn canonical_bits(lengths: Seq<u8>, s: int) -> Seq<bool> {
    let l = lengths[s] as nat;
    Seq::new(l, |i: int| nat_bit(canonical_value(lengths, s), (l - 1 - i) as nat))
}

/// Reducing a number modulo `2^w` keeps its bits below `w`.
pub proof fn lemma_nat_bit_mod(x: nat, k: nat, w: nat)
    requires
        k < w,
    ensures
        nat_bit(x % pow2(w), k) == nat_bit(x, k),
{
    let a = pow2(k) as int;
    let half = pow2((w - k - 1) as nat) as int;
    let b = 2 * half;
    lemma_pow2_pos(k);
    lemma_pow2_pos((w - k - 1) as nat);
    lemma_pow2_unfold((w - k) as nat);
    lemma_pow2_adds(k, (w - k) as nat);
    assert(pow2(w) == a * b);
    let xi = x as int;
    let y = xi / a;
    lemma_mod_breakdown(xi, a, b);
    lemma_mod_bound(xi, a);
    lemma_mod_bound(y, b);
    assert(xi % (a * b) == (y % b) * a + xi % a) by (nonlinear_arith)
        requires
            xi % (a * b) == a * (y % b) + xi % a,
    ;
    lemma_fundamental_div_mod_converse(xi % (a * b), a, y % b, xi % a);
    assert((xi % (a * b)) / a == y % b);
    lemma_mod_mod(y, 2, half);
    assert(2 * half == b);
    assert((y % b) % 2 == y % 2);
}


/// Symbols without a code, added at the end, change no count of a length
/// other than 0.
pub proof fn lemma_count_len_padded(lengths: Seq<u8>, padded: Seq<u8>, l: nat, n: nat)
    requires
        lengths.len() <= padded.len(),
        forall|s: int| 0 <= s < lengths.len() ==> padded[s] == lengths[s],
        forall|s: int| lengths.len() <= s < padded.len() ==> padded[s] == 0,
        l >= 1,
    ensures
        count_len(padded, l, n) == count_len(lengths, l, n),
    decreases n,
{
    if n > 0 {
        lemma_count_len_padded(lengths, padded, l, (n - 1) as nat);
    }
}

/// Past the end of the lengths there is nothing to count.
pub proof fn lemma_count_len_past(lengths: Seq<u8>, l: nat, n: nat)
    requires
        n >= lengths.len(),
    ensures
        count_len(lengths, l, n) == count_len(lengths, l, lengths.len()),
    decreases n,
{
    if n > lengths.len() {
        lemma_count_len_past(lengths, l, (n - 1) as nat);
    }
}

/// Symbols without a code, added at the end, change no code.
pub proof fn lemma_canonical_padded(lengths: Seq<u8>, padded: Seq<u8>, s: int)
    requires
        lengths.len() <= padded.len(),
        forall|s: int| 0 <= s < lengths.len() ==> padded[s] == lengths[s],
        forall|s: int| lengths.len() <= s < padded.len() ==> padded[s] == 0,
        0 <= s < lengths.len(),
    ensures
        canonical_bits(padded, s) == canonical_bits(lengths, s),
{
    let l = lengths[s] as nat;
    if l >= 1 {
        lemma_first_code_padded(lengths, padded, l);
        lemma_count_len_padded(lengths, padded, l, s as nat);
    }
    assert(canonical_bits(padded, s) =~= canonical_bits(lengths, s));
}

proof fn lemma_first_code_padded(lengths: Seq<u8>, padded: Seq<u8>, l: nat)
    requires
        lengths.len() <= padded.len(),
        forall|s: int| 0 <= s < lengths.len() ==> padded[s] == lengths[s],
        forall|s: int| lengths.len() <= s < padded.len() ==> padded[s] == 0,
    ensures
        first_code(padded, l) == first_code(lengths, l),
    decreases l,
{
    if l > 1 {
        lemma_first_code_padded(lengths, padded, (l - 1) as nat);
        lemma_count_len_padded(lengths, padded, (l - 1) as nat, padded.len());
        lemma_count_len_past(lengths, (l - 1) as nat, padded.len());
    }
}


// ---------------------------------------------------------------------------
// Why lengths with a Kraft sum of at most 1 give a prefix code

/// The low `l` bits of the number `v`, most significant first.
pub open spec fn msb_bits(v: nat, l: nat) -> Seq<bool> {
    Seq::new(l, |i: int| nat_bit(v, (l - 1 - i) as nat))
}

/// The number that a bit sequence spells, most significant bit first.
pub open spec fn msb_value(bits: Seq<bool>) -> nat
    decreases bits.len(),
{
    if bits.len() == 0 {
        0
    } else {
        2 * msb_value(bits.drop_last()) + (if bits.last() { 1nat } else { 0nat })
    }
}

/// The bits of a number spell the number again, as far as they go.
pub proof fn lemma_msb_value(v: nat, l: nat)
    ensures
        msb_value(msb_bits(v, l)) == v % pow2(l),
    decreases l,
{
    let bits = msb_bits(v, l);
    lemma_pow2_pos(l);
    if l == 0 {
        assert(pow2(0) == 1) by {
            vstd::arithmetic::power2::lemma2_to64();
        }
    } else {
        let half = v / 2;
        lemma_msb_value(half, (l - 1) as nat);
        assert(bits.drop_last() =~= msb_bits(half, (l - 1) as nat)) by {
            assert forall|i: int| 0 <= i < l - 1 implies bits.drop_last()[i] == msb_bits(
                half,
                (l - 1) as nat,
            )[i] by {
                let k = (l - 2 - i) as nat;
                lemma_pow2_unfold(k + 1);
                lemma_pow2_pos(k);
                lemma_div_denominator(v as int, 2, pow2(k) as int);
            }
        }
        assert(pow2(0) == 1) by {
            vstd::arithmetic::power2::lemma2_to64();
        }
        assert(bits.last() == (v % 2 == 1));
        lemma_pow2_unfold(l);
        lemma_pow2_pos((l - 1) as nat);
        lemma_mod_breakdown(v as int, 2, pow2((l - 1) as nat) as int);
    }
}

/// The start of a bit sequence spells the number of the whole with the
/// last bits cut off.
pub proof fn lemma_msb_take(bits: Seq<bool>, k: nat)
    requires
        k <= bits.len(),
    ensures
        msb_value(bits.take(k as int)) == msb_value(bits) / pow2((bits.len() - k) as nat),
    decreases bits.len() - k,
{
    if k == bits.len() {
        assert(bits.take(k as int) =~= bits);
        assert(pow2(0) == 1) by {
            vstd::arithmetic::power2::lemma2_to64();
        }
        assert((bits.len() - k) as nat == 0);
        assert(msb_value(bits) / pow2(0) == msb_value(bits));
    } else {
        lemma_msb_take(bits, k + 1);
        let longer = bits.take(k as int + 1);
        assert(longer.drop_last() =~= bits.take(k as int));
        let rest = (bits.len() - k - 1) as nat;
        let x = msb_value(bits) as int;
        let q = msb_value(bits.take(k as int)) as int;
        let bit: int = if longer.last() { 1 } else { 0 };
        assert(msb_value(longer) == 2 * q + bit);
        assert(msb_value(longer) == x / (pow2(rest) as int));
        lemma_pow2_unfold(rest + 1);
        lemma_pow2_pos(rest);
        lemma_div_denominator(x, pow2(rest) as int, 2);
        assert(pow2(rest) * 2 == pow2(rest + 1));
        assert(x / (pow2(rest + 1) as int) == (x / (pow2(rest) as int)) / 2);
        assert((2 * q + bit) / 2 == q);
        assert((bits.len() - k) as nat == rest + 1);
        assert(q == x / (pow2(rest + 1) as int));
        assert(msb_value(bits.take(k as int)) == msb_value(bits) / pow2(rest + 1));
    }
}

/// The part of the Kraft sum, scaled by `2^m`, that the first `n` symbols
/// with lengths from 1 to `l` make up.
pub open spec fn kraft_upto(lengths: Seq<u8>, m: nat, l: nat, n: nat) -> nat
    decreases n,
{
    if n == 0 {
        0
    } else {
        kraft_upto(lengths, m, l, (n - 1) as nat) + (if n <= lengths.len() && 1 <= lengths[n - 1]
            <= l {
            kraft_term(lengths[n - 1] as nat, m)
        } else {
            0
        })
    }
}

proof fn lemma_kraft_upto_le(lengths: Seq<u8>, m: nat, l: nat, n: nat)
    requires
        n <= lengths.len(),
    ensures
        kraft_upto(lengths, m, l, n) <= kraft_sum(byte_values(lengths).take(n as int), m),
    decreases n,
{
    if n > 0 {
        lemma_kraft_upto_le(lengths, m, l, (n - 1) as nat);
        assert(byte_values(lengths).take(n as int).drop_last() =~= byte_values(lengths).take(
            n - 1,
        ));
    }
}

proof fn lemma_kraft_upto_step(lengths: Seq<u8>, m: nat, l: nat, n: nat)
    requires
        1 <= l <= m,
    ensures
        kraft_upto(lengths, m, l, n) == kraft_upto(lengths, m, (l - 1) as nat, n) + count_len(
            lengths,
            l,
            n,
        ) * pow2((m - l) as nat),
    decreases n,
{
    let unit = pow2((m - l) as nat);
    if n > 0 {
        lemma_kraft_upto_step(lengths, m, l, (n - 1) as nat);
        let c = count_len(lengths, l, (n - 1) as nat);
        assert((c + 1) * unit == c * unit + unit) by (nonlinear_arith);
    } else {
        assert(0 * unit == 0) by (nonlinear_arith);
    }
}

proof fn lemma_kraft_upto_zero(lengths: Seq<u8>, m: nat, n: nat)
    ensures
        kraft_upto(lengths, m, 0, n) == 0,
    decreases n,
{
    if n > 0 {
        lemma_kraft_upto_zero(lengths, m, (n - 1) as nat);
    }
}

/// The codes up to length `l` take up as much of the code space as the
/// first code past them says.
proof fn lemma_first_code_kraft(lengths: Seq<u8>, m: nat, l: nat)
    requires
        1 <= l <= m,
    ensures
        (first_code(lengths, l) + count_len(lengths, l, lengths.len())) * pow2((m - l) as nat)
            == kraft_upto(lengths, m, l, lengths.len()),
    decreases l,
{
    let n = lengths.len();
    let unit = pow2((m - l) as nat);
    let c = count_len(lengths, l, n);
    lemma_kraft_upto_step(lengths, m, l, n);
    if l == 1 {
        lemma_kraft_upto_zero(lengths, m, n);
    } else {
        lemma_first_code_kraft(lengths, m, (l - 1) as nat);
        let fb = first_code(lengths, (l - 1) as nat);
        let cb = count_len(lengths, (l - 1) as nat, n);
        lemma_pow2_unfold((m - l + 1) as nat);
        assert((2 * (fb + cb) + c) * unit == (fb + cb) * (2 * unit) + c * unit)
            by (nonlinear_arith);
    }
}

/// The first code of a longer length lies past all codes of a shorter
/// length with bits added.
proof fn lemma_first_code_grows(lengths: Seq<u8>, l1: nat, l2: nat)
    requires
        1 <= l1 < l2,
    ensures
        first_code(lengths, l2) >= (first_code(lengths, l1) + count_len(
            lengths,
            l1,
            lengths.len(),
        )) * pow2((l2 - l1) as nat),
    decreases l2,
{
    let n = lengths.len();
    let base = first_code(lengths, l1) + count_len(lengths, l1, n);
    if l2 == l1 + 1 {
        assert(pow2(1) == 2) by {
            vstd::arithmetic::power2::lemma2_to64();
        }
        assert(first_code(lengths, l2) == 2 * base);
        assert(base * pow2(1) == 2 * base) by (nonlinear_arith)
            requires
                pow2(1) == 2,
        ;
    } else {
        lemma_first_code_grows(lengths, l1, (l2 - 1) as nat);
        let before = first_code(lengths, (l2 - 1) as nat);
        let c = count_len(lengths, (l2 - 1) as nat, n);
        let unit = pow2((l2 - 1 - l1) as nat);
        lemma_pow2_unfold((l2 - l1) as nat);
        assert(first_code(lengths, l2) == 2 * (before + c));
        assert(2 * (before + c) >= base * (2 * unit)) by (nonlinear_arith)
            requires
                before >= base * unit,
                c >= 0,
        ;
        assert(pow2((l2 - l1) as nat) == 2 * unit);
    }
}

proof fn lemma_count_len_grows(lengths: Seq<u8>, l: nat, i: nat, j: nat)
    requires
        i <= j,
    ensures
        count_len(lengths, l, i) <= count_len(lengths, l, j),
    decreases j,
{
    if i < j {
        lemma_count_len_grows(lengths, l, i, (j - 1) as nat);
    }
}

/// Of two symbols of one length, the later has the greater number; and the
/// number of a code is below the first code past its length.
proof fn lemma_rank(lengths: Seq<u8>, a: int, b: int)
    requires
        0 <= a < b <= lengths.len(),
        b < lengths.len() ==> lengths[b] == lengths[a],
    ensures
        count_len(lengths, lengths[a] as nat, a as nat) < count_len(
            lengths,
            lengths[a] as nat,
            b as nat,
        ),
{
    let l = lengths[a] as nat;
    lemma_count_len_grows(lengths, l, (a + 1) as nat, b as nat);
}

/// With a Kraft sum of at most 1, the number of each code fits its length.
pub proof fn lemma_canonical_value_fits(lengths: Seq<u8>, m: nat, s: int)
    requires
        kraft_holds(byte_values(lengths), m),
        0 <= s < lengths.len(),
        lengths[s] >= 1,
    ensures
        canonical_value(lengths, s) < pow2(lengths[s] as nat),
        first_code(lengths, lengths[s] as nat) + count_len(
            lengths,
            lengths[s] as nat,
            lengths.len(),
        ) <= pow2(lengths[s] as nat),
{
    let l = lengths[s] as nat;
    let n = lengths.len();
    let total = first_code(lengths, l) + count_len(lengths, l, n);
    assert(byte_values(lengths)[s] == l);
    lemma_first_code_kraft(lengths, m, l);
    lemma_kraft_upto_le(lengths, m, l, n);
    assert(byte_values(lengths).take(n as int) =~= byte_values(lengths));
    lemma_rank(lengths, s, n as int);
    let unit = pow2((m - l) as nat);
    lemma_pow2_pos((m - l) as nat);
    lemma_pow2_adds(l, (m - l) as nat);
    assert(total <= pow2(l)) by (nonlinear_arith)
        requires
            total * unit <= pow2(l) * unit,
            unit > 0,
    ;
}

/// With a Kraft sum of at most 1, the bits of one code do not start the
/// bits of another.
pub proof fn lemma_canonical_bits_differ(lengths: Seq<u8>, m: nat, a: int, b: int)
    requires
        kraft_holds(byte_values(lengths), m),
        0 <= a < lengths.len(),
        0 <= b < lengths.len(),
        a != b,
        1 <= lengths[a] <= lengths[b],
    ensures
        canonical_bits(lengths, b).take(lengths[a] as int) != canonical_bits(lengths, a),
{
    let la = lengths[a] as nat;
    let lb = lengths[b] as nat;
    let n = lengths.len();
    let va = canonical_value(lengths, a);
    let vb = canonical_value(lengths, b);
    let bits_a = canonical_bits(lengths, a);
    let bits_b = canonical_bits(lengths, b);
    lemma_canonical_value_fits(lengths, m, a);
    lemma_canonical_value_fits(lengths, m, b);
    assert(bits_a =~= msb_bits(va, la));
    assert(bits_b =~= msb_bits(vb, lb));
    lemma_msb_value(va, la);
    lemma_msb_value(vb, lb);
    lemma_small_mod(va, pow2(la));
    lemma_small_mod(vb, pow2(lb));
    lemma_msb_take(bits_b, la);
    if bits_b.take(la as int) == bits_a {
        let gap = pow2((lb - la) as nat);
        lemma_pow2_pos((lb - la) as nat);
        assert(va == vb / gap);
        if la == lb {
            assert(pow2(0) == 1) by {
                vstd::arithmetic::power2::lemma2_to64();
            }
            assert(vb / gap == vb) by (nonlinear_arith)
                requires
                    gap == 1,
            ;
            if a < b {
                lemma_rank(lengths, a, b);
                assert(va < vb);
            } else {
                lemma_rank(lengths, b, a);
                assert(vb < va);
            }
        } else {
            lemma_first_code_grows(lengths, la, lb);
            lemma_rank(lengths, a, n as int);
            let base = first_code(lengths, la) + count_len(lengths, la, n);
            assert(vb >= (va + 1) * gap) by (nonlinear_arith)
                requires
                    vb >= base * gap,
                    base >= va + 1,
                    gap > 0,
            ;
            assert(vb / gap >= va + 1) by {
                vstd::arithmetic::div_mod::lemma_div_is_ordered(
                    ((va + 1) * gap) as int,
                    vb as int,
                    gap as int,
                );
                vstd::arithmetic::div_mod::lemma_div_by_multiple((va + 1) as int, gap as int);
            }
        }
    }
}

} // verus!
