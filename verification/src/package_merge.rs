//! Length-limited prefix code lengths by the package-merge algorithm.
//!
//! Each symbol is a coin for every allowed code length: a coin of length `l`
//! has face value `2^-l` and weighs as much as the symbol is frequent. The
//! cheapest coins that add up to a face value of `n - 1`, for `n` symbols in
//! use, give each symbol as its code length the number of its coins taken.
//!
//! Coins are packaged in pairs from the smallest face value up; each level
//! merges the symbols' own coins with the packages made of the level below. The
//! symbols' coins keep their order on every level, so it is enough to record
//! for each coin of a level whether it is a package. The first `2 (n - 1)` coins
//! of the top level are the ones taken; the packages among them unfold into the
//! first coins of the level below, and so on down.

use vstd::prelude::*;
use vstd::arithmetic::power2::{
    pow2, lemma_pow2_unfold, lemma_pow2_pos, lemma2_to64, lemma_pow2_strictly_increases,
};
use vstd::bits::{lemma_u64_shl_is_mul, lemma_u64_shr_is_div, lemma_u64_pow2_no_overflow};
use crate::bitset::{Bitset, count_in};

verus! {

/// Why no code lengths could be made.
#[derive(Debug, Clone, Copy, PartialEq, Eq, Structural)]
pub enum PackageMergeError {
    /// More symbols than codes of the greatest allowed length.
    InvalidMaxLength,
}

/// A coin of one level: what it weighs, and whether it packages two coins of
/// the level below.
pub struct Coin {
    pub weight: nat,
    pub package: bool,
}

/// How many symbols have a frequency other than zero.
pub open spec fn count_nonzero(freqs: Seq<u32>) -> nat
    decreases freqs.len(),
{
    if freqs.len() == 0 {
        0
    } else {
        count_nonzero(freqs.drop_last()) + (if freqs.last() != 0 { 1nat } else { 0nat })
    }
}

/// The lengths that give `length` to every symbol in use and 0 to the others.
pub open spec fn presence(freqs: Seq<u32>, length: nat) -> Seq<nat> {
    Seq::new(freqs.len(), |i: int| if freqs[i] != 0 { length } else { 0nat })
}

/// Where a symbol of frequency `f`, later than all those of `order`, goes in
/// `order`: behind every symbol that is not more frequent.
pub open spec fn insert_at(freqs: Seq<u32>, order: Seq<usize>, f: u32) -> nat
    decreases order.len(),
{
    if order.len() == 0 {
        0
    } else if freqs[order.last() as int] <= f {
        order.len()
    } else {
        insert_at(freqs, order.drop_last(), f)
    }
}

/// The symbols in use among the first `n`, by ascending frequency, and by
/// ascending index where frequencies are equal.
pub open spec fn sorted_symbols(freqs: Seq<u32>, n: nat) -> Seq<usize>
    decreases n,
{
    if n == 0 {
        Seq::empty()
    } else {
        let before = sorted_symbols(freqs, (n - 1) as nat);
        if freqs[n - 1] != 0 {
            before.insert(insert_at(freqs, before, freqs[n - 1]) as int, (n - 1) as usize)
        } else {
            before
        }
    }
}

/// The frequencies of the symbols of `order`, in that order.
pub open spec fn pure_weights(freqs: Seq<u32>, order: Seq<usize>) -> Seq<nat> {
    Seq::new(order.len(), |k: int| freqs[order[k] as int] as nat)
}

/// The packages made of a level: its coins paired off from the front, a last
/// odd coin left out.
pub open spec fn packages(below: Seq<nat>) -> Seq<nat> {
    Seq::new(below.len() / 2, |k: int| below[2 * k] + below[2 * k + 1])
}

/// The symbols' coins from `i` on merged with the packages from `j` on by
/// ascending weight; of two equal weights the symbol's coin comes first.
pub open spec fn merge(pure: Seq<nat>, pk: Seq<nat>, i: nat, j: nat) -> Seq<Coin>
    decreases (if i < pure.len() { pure.len() - i } else { 0 }) + (if j < pk.len() {
        pk.len() - j
    } else {
        0
    }),
{
    if i < pure.len() && (j >= pk.len() || pure[i as int] <= pk[j as int]) {
        seq![Coin { weight: pure[i as int], package: false }] + merge(pure, pk, i + 1, j)
    } else if j < pk.len() {
        seq![Coin { weight: pk[j as int], package: true }] + merge(pure, pk, i, j + 1)
    } else {
        Seq::empty()
    }
}

/// The weights of a level's coins.
pub open spec fn weights(coins: Seq<Coin>) -> Seq<nat> {
    Seq::new(coins.len(), |k: int| coins[k].weight)
}

/// Level `d`: the symbols' coins alone at level 0, and above that the
/// symbols' coins merged with the packages of the level below.
pub open spec fn level(pure: Seq<nat>, d: nat) -> Seq<Coin>
    decreases d,
{
    if d == 0 {
        Seq::new(pure.len(), |k: int| Coin { weight: pure[k], package: false })
    } else {
        merge(pure, packages(weights(level(pure, (d - 1) as nat))), 0, 0)
    }
}

/// The top level when levels are built from `d` on: building stops at level
/// `limit`, or earlier at a level that weighs the same as the one below.
pub open spec fn top_level(pure: Seq<nat>, limit: nat, d: nat) -> nat
    decreases limit - d,
{
    if d >= limit {
        d
    } else if d > 0 && weights(level(pure, d)) == weights(level(pure, (d - 1) as nat)) {
        d
    } else {
        top_level(pure, limit, d + 1)
    }
}

/// How many of the first `r` coins are symbols' coins.
pub open spec fn pure_count(coins: Seq<Coin>, r: nat) -> nat
    decreases r,
{
    if r == 0 {
        0
    } else {
        pure_count(coins, (r - 1) as nat) + (if r <= coins.len() && !coins[r - 1].package {
            1nat
        } else {
            0nat
        })
    }
}

/// How many coins of the symbol at place `j` are among the first `r` coins of
/// level `d`, packages unfolded.
pub open spec fn coin_count(pure: Seq<nat>, d: nat, r: nat, j: nat) -> nat
    decreases d,
{
    if d == 0 {
        if j < r { 1 } else { 0 }
    } else {
        let p = pure_count(level(pure, d), r);
        (if j < p { 1nat } else { 0nat }) + coin_count(
            pure,
            (d - 1) as nat,
            (2 * (r - p)) as nat,
            j,
        )
    }
}

/// The code lengths of the symbols in sorted order: the coins of each among
/// the first `2 (n - 1)` of the top level.
pub open spec fn sorted_lengths(pure: Seq<nat>, max_length: nat) -> Seq<nat> {
    let top = top_level(pure, (max_length - 1) as nat, 0);
    Seq::new(pure.len(), |j: int| coin_count(pure, top, (2 * (pure.len() - 1)) as nat, j as nat))
}

/// `size` lengths, all 0 but for the first `k` symbols of `order`, which have
/// the first `k` of `values`.
pub open spec fn scatter(order: Seq<usize>, values: Seq<nat>, size: nat, k: nat) -> Seq<nat>
    decreases k,
{
    if k == 0 {
        Seq::new(size, |i: int| 0nat)
    } else {
        scatter(order, values, size, (k - 1) as nat).update(order[k - 1] as int, values[k - 1])
    }
}

/// The code lengths that package-merge gives to `freqs` under the limit
/// `max_length`.
///
/// With at most two symbols, or at most two in use, each symbol in use has
/// length 1. Otherwise the limit must allow a code for every symbol; where it
/// allows no shorter limit, every symbol in use has the limit as its length.
pub open spec fn spec_package_merge(freqs: Seq<u32>, max_length: nat) -> Result<
    Seq<nat>,
    PackageMergeError,
> {
    let order = sorted_symbols(freqs, freqs.len());
    if freqs.len() <= 2 || count_nonzero(freqs) <= 2 {
        Ok(presence(freqs, 1))
    } else if pow2(max_length) < freqs.len() {
        Err(PackageMergeError::InvalidMaxLength)
    } else if pow2((max_length - 1) as nat) < freqs.len() {
        Ok(presence(freqs, max_length))
    } else {
        Ok(
            scatter(
                order,
                sorted_lengths(pure_weights(freqs, order), max_length),
                freqs.len(),
                order.len(),
            ),
        )
    }
}

/// The numbers that a sequence of bytes holds.
pub open spec fn byte_values(s: Seq<u8>) -> Seq<nat> {
    Seq::new(s.len(), |i: int| s[i] as nat)
}

/// The numbers that a sequence of words holds.
pub open spec fn word_values(s: Seq<u64>) -> Seq<nat> {
    Seq::new(s.len(), |i: int| s[i] as nat)
}

// ---------------------------------------------------------------------------
// Facts about the levels

/// A merge holds every coin that is left of both sides.
pub proof fn lemma_merge_len(pure: Seq<nat>, pk: Seq<nat>, i: nat, j: nat)
    requires
        i <= pure.len(),
        j <= pk.len(),
    ensures
        merge(pure, pk, i, j).len() == (pure.len() - i) + (pk.len() - j),
    decreases (pure.len() - i) + (pk.len() - j),
{
    if i < pure.len() && (j >= pk.len() || pure[i as int] <= pk[j as int]) {
        lemma_merge_len(pure, pk, i + 1, j);
    } else if j < pk.len() {
        lemma_merge_len(pure, pk, i, j + 1);
    }
}

/// The size that level `d` has for `n` symbols.
pub open spec fn level_size(n: nat, d: nat) -> nat
    decreases d,
{
    if d == 0 {
        n
    } else {
        n + level_size(n, (d - 1) as nat) / 2
    }
}

pub proof fn lemma_level_len(pure: Seq<nat>, d: nat)
    ensures
        level(pure, d).len() == level_size(pure.len(), d),
    decreases d,
{
    if d > 0 {
        lemma_level_len(pure, (d - 1) as nat);
        let below = weights(level(pure, (d - 1) as nat));
        lemma_merge_len(pure, packages(below), 0, 0);
    }
}

/// A level of `n >= 1` symbols has `2n - 1 - (n - 1) / 2^d` coins.
pub proof fn lemma_level_size(n: nat, d: nat)
    requires
        n >= 1,
    ensures
        level_size(n, d) == 2 * n - 1 - (n - 1) / (pow2(d) as int),
        n <= level_size(n, d) <= 2 * n - 1,
    decreases d,
{
    lemma_pow2_pos(d);
    if d == 0 {
        lemma2_to64();
    } else {
        lemma_level_size(n, (d - 1) as nat);
        lemma_pow2_unfold(d);
        lemma_pow2_pos((d - 1) as nat);
        let q = pow2((d - 1) as nat) as int;
        let u = (n - 1) / q;
        assert((n - 1) / (2 * q) == u / 2) by {
            vstd::arithmetic::div_mod::lemma_div_denominator(n - 1, q, 2);
            assert(q * 2 == 2 * q);
        }
        assert((2 * n - 1 - u) / 2 == n - 1 - u / 2);
        assert(0 <= u <= n - 1) by {
            vstd::arithmetic::div_mod::lemma_div_pos_is_pos(n - 1, q);
            vstd::arithmetic::div_mod::lemma_div_is_ordered_by_denominator(n - 1, 1, q);
        }
    }
}

/// No coin of level `d` weighs more than `2^d` times the heaviest symbol.
pub proof fn lemma_level_weight(pure: Seq<nat>, bound: nat, d: nat, k: int)
    requires
        forall|i: int| 0 <= i < pure.len() ==> pure[i] <= bound,
        0 <= k < level(pure, d).len(),
    ensures
        level(pure, d)[k].weight <= pow2(d) * bound,
    decreases d,
{
    lemma_pow2_pos(d);
    if d == 0 {
        lemma2_to64();
        assert(pow2(0) * bound == bound) by (nonlinear_arith)
            requires
                pow2(0) == 1,
        ;
    } else {
        let below = weights(level(pure, (d - 1) as nat));
        let pk = packages(below);
        let half = pow2((d - 1) as nat) * bound;
        lemma_pow2_unfold(d);
        lemma_pow2_pos((d - 1) as nat);
        assert(pow2(d) * bound == 2 * half) by (nonlinear_arith)
            requires
                pow2(d) == 2 * pow2((d - 1) as nat),
                half == pow2((d - 1) as nat) * bound,
        ;
        assert forall|j: int| 0 <= j < pk.len() implies pk[j] <= 2 * half by {
            lemma_level_weight(pure, bound, (d - 1) as nat, 2 * j);
            lemma_level_weight(pure, bound, (d - 1) as nat, 2 * j + 1);
        }
        assert(bound <= half) by (nonlinear_arith)
            requires
                pow2((d - 1) as nat) >= 1,
                half == pow2((d - 1) as nat) * bound,
        ;
        lemma_merge_weight(pure, pk, 0, 0, 2 * half, k);
    }
}

pub proof fn lemma_merge_weight(pure: Seq<nat>, pk: Seq<nat>, i: nat, j: nat, bound: nat, k: int)
    requires
        i <= pure.len(),
        j <= pk.len(),
        forall|x: int| 0 <= x < pure.len() ==> pure[x] <= bound,
        forall|x: int| 0 <= x < pk.len() ==> pk[x] <= bound,
        0 <= k < merge(pure, pk, i, j).len(),
    ensures
        merge(pure, pk, i, j)[k].weight <= bound,
    decreases (pure.len() - i) + (pk.len() - j),
{
    if i < pure.len() && (j >= pk.len() || pure[i as int] <= pk[j as int]) {
        if k > 0 {
            lemma_merge_weight(pure, pk, i + 1, j, bound, k - 1);
        }
    } else if j < pk.len() {
        if k > 0 {
            lemma_merge_weight(pure, pk, i, j + 1, bound, k - 1);
        }
    }
}

/// Among the first `r` coins of a merge there are at most as many symbols'
/// coins and at most as many packages as went into it.
pub proof fn lemma_merge_counts(pure: Seq<nat>, pk: Seq<nat>, i: nat, j: nat, r: nat)
    requires
        i <= pure.len(),
        j <= pk.len(),
        r <= merge(pure, pk, i, j).len(),
    ensures
        pure_count(merge(pure, pk, i, j), r) <= pure.len() - i,
        r - pure_count(merge(pure, pk, i, j), r) <= pk.len() - j,
        pure_count(merge(pure, pk, i, j), r) <= r,
    decreases (pure.len() - i) + (pk.len() - j),
{
    lemma_merge_len(pure, pk, i, j);
    if r > 0 {
        if i < pure.len() && (j >= pk.len() || pure[i as int] <= pk[j as int]) {
            let rest = merge(pure, pk, i + 1, j);
            lemma_merge_len(pure, pk, i + 1, j);
            lemma_merge_counts(pure, pk, i + 1, j, (r - 1) as nat);
            lemma_pure_count_cons(Coin { weight: pure[i as int], package: false }, rest, r);
        } else {
            let rest = merge(pure, pk, i, j + 1);
            lemma_merge_len(pure, pk, i, j + 1);
            lemma_merge_counts(pure, pk, i, j + 1, (r - 1) as nat);
            lemma_pure_count_cons(Coin { weight: pk[j as int], package: true }, rest, r);
        }
    }
}

/// Counting over a sequence with one more coin in front.
pub proof fn lemma_pure_count_cons(head: Coin, rest: Seq<Coin>, r: nat)
    requires
        1 <= r <= rest.len() + 1,
    ensures
        pure_count(seq![head] + rest, r) == pure_count(rest, (r - 1) as nat) + (if head.package {
            0nat
        } else {
            1nat
        }),
    decreases r,
{
    let all = seq![head] + rest;
    if r == 1 {
        assert(pure_count(all, 0) == 0);
        assert(all[0] == head);
    } else {
        lemma_pure_count_cons(head, rest, (r - 1) as nat);
        assert(all[r - 1] == rest[r - 2]);
    }
}


pub proof fn lemma_sorted_symbols(freqs: Seq<u32>, n: nat)
    requires
        n <= freqs.len(),
    ensures
        sorted_symbols(freqs, n).len() == count_nonzero(freqs.take(n as int)),
        forall|k: int|
            0 <= k < sorted_symbols(freqs, n).len() ==> #[trigger] sorted_symbols(freqs, n)[k]
                < n,
    decreases n,
{
    if n > 0 {
        lemma_sorted_symbols(freqs, (n - 1) as nat);
        assert(freqs.take(n as int).drop_last() =~= freqs.take(n - 1));
        let before = sorted_symbols(freqs, (n - 1) as nat);
        lemma_insert_at_bound(freqs, before, freqs[n - 1]);
    }
}

pub proof fn lemma_insert_at_bound(freqs: Seq<u32>, order: Seq<usize>, f: u32)
    ensures
        insert_at(freqs, order, f) <= order.len(),
    decreases order.len(),
{
    if order.len() > 0 && freqs[order.last() as int] > f {
        lemma_insert_at_bound(freqs, order.drop_last(), f);
    }
}

/// The marks of level `d >= 1` in the record of packages: the coin at place
/// `k` is recorded at `2 n (d - 1) + k`, for `n` symbols.
pub open spec fn marks_level(mask: Set<nat>, pure: Seq<nat>, d: nat) -> bool {
    let base = 2 * pure.len() * (d - 1);
    let coins = level(pure, d);
    forall|i: nat|
        base <= i < base + 2 * pure.len() ==> (#[trigger] mask.contains(i) == (i - base
            < coins.len() && coins[i - base].package))
}

/// The packages among the first `r` coins, counted in the record.
pub proof fn lemma_count_marks(mask: Set<nat>, coins: Seq<Coin>, base: nat, r: nat)
    requires
        r <= coins.len(),
        forall|i: nat| base <= i < base + r ==> (#[trigger] mask.contains(i) == coins[i - base].package),
    ensures
        count_in(mask, base, base + r) + pure_count(coins, r) == r,
    decreases r,
{
    if r > 0 {
        lemma_count_marks(mask, coins, base, (r - 1) as nat);
        assert(mask.contains((base + r - 1) as nat) == coins[r - 1].package);
    }
}

/// The lengths that give `length` to each symbol in use.
fn presence_lengths(freqs: &[u32], length: u8) -> (r: Vec<u8>)
    ensures
        byte_values(r@) == presence(freqs@, length as nat),
{
    let mut r: Vec<u8> = Vec::new();
    let mut i: usize = 0;
    while i < freqs.len()
        invariant
            i <= freqs.len(),
            r@.len() == i,
            forall|k: int| 0 <= k < i ==> r@[k] == (if freqs@[k] != 0 { length } else { 0u8 }),
        decreases freqs.len() - i,
    {
        r.push(if freqs[i] != 0 { length } else { 0 });
        i += 1;
    }
    proof {
        assert(byte_values(r@) =~= presence(freqs@, length as nat));
    }
    r
}

/// The symbols in use, by ascending frequency and then by index.
pub(crate) fn sort_symbols(freqs: &[u32]) -> (order: Vec<usize>)
    ensures
        order@ == sorted_symbols(freqs@, freqs@.len()),
        order@.len() == count_nonzero(freqs@),
        forall|k: int| 0 <= k < order@.len() ==> #[trigger] order@[k] < freqs@.len(),
{
    let mut order: Vec<usize> = Vec::new();
    let mut i: usize = 0;
    while i < freqs.len()
        invariant
            i <= freqs.len(),
            order@ == sorted_symbols(freqs@, i as nat),
        decreases freqs.len() - i,
    {
        let f = freqs[i];
        proof {
            lemma_sorted_symbols(freqs@, i as nat);
        }
        if f != 0 {
            let mut p: usize = order.len();
            proof {
                assert(order@.take(order@.len() as int) =~= order@);
            }
            while p > 0 && freqs[order[p - 1]] > f
                invariant
                    p <= order@.len(),
                    forall|k: int| 0 <= k < order@.len() ==> #[trigger] order@[k] < freqs@.len(),
                    insert_at(freqs@, order@, f) == insert_at(freqs@, order@.take(p as int), f),
                decreases p,
            {
                proof {
                    assert(order@.take(p as int).drop_last() =~= order@.take(p - 1));
                }
                p -= 1;
            }
            proof {
                if p > 0 {
                    assert(order@.take(p as int).last() == order@[p - 1]);
                }
            }
            order.insert(p, i);
        }
        i += 1;
    }
    proof {
        lemma_sorted_symbols(freqs@, freqs@.len());
        assert(freqs@.take(freqs@.len() as int) =~= freqs@);
    }
    order
}

/// Whether two vectors hold the same words.
fn same_words(a: &Vec<u64>, b: &Vec<u64>) -> (r: bool)
    ensures
        r == (a@ == b@),
{
    if a.len() != b.len() {
        return false;
    }
    let mut i: usize = 0;
    while i < a.len()
        invariant
            i <= a@.len() == b@.len(),
            forall|k: int| 0 <= k < i ==> a@[k] == b@[k],
        decreases a.len() - i,
    {
        if a[i] != b[i] {
            return false;
        }
        i += 1;
    }
    proof {
        assert(a@ =~= b@);
    }
    true
}

/// Fills `cur` with the level above `prev`, and records in `mask`, from
/// `base` on, which of its coins are packages.
fn merge_level(
    pure: &Vec<u64>,
    prev: &Vec<u64>,
    cur: &mut Vec<u64>,
    mask: &mut Bitset,
    base: usize,
)
    requires
        forall|k: int| 0 <= k < prev@.len() ==> prev@[k] <= u64::MAX / 2,
        base + pure@.len() + prev@.len() / 2 <= usize::MAX,
        forall|i: nat| i >= base ==> !old(mask)@.contains(i),
    ensures
        word_values(final(cur)@) == weights(
            merge(word_values(pure@), packages(word_values(prev@)), 0, 0),
        ),
        forall|i: nat| i < base ==> final(mask)@.contains(i) == old(mask)@.contains(i),
        forall|i: nat|
            i >= base ==> (#[trigger] final(mask)@.contains(i) == (i - base < merge(
                word_values(pure@),
                packages(word_values(prev@)),
                0,
                0,
            ).len() && merge(word_values(pure@), packages(word_values(prev@)), 0, 0)[i
                - base].package)),
{
    let n = pure.len();
    let m = prev.len() / 2;
    let ghost pn = word_values(pure@);
    let ghost pk = packages(word_values(prev@));
    let ghost coins = merge(pn, pk, 0, 0);
    proof {
        lemma_merge_len(pn, pk, 0, 0);
        assert(coins.skip(0) =~= coins);
    }
    cur.clear();
    let mut i: usize = 0;
    let mut j: usize = 0;
    while i < n || j < m
        invariant
            i <= n == pure@.len(),
            j <= m == prev@.len() / 2,
            prev@.len() <= usize::MAX,
            pn == word_values(pure@),
            pk == packages(word_values(prev@)),
            forall|k: int| 0 <= k < prev@.len() ==> prev@[k] <= u64::MAX / 2,
            base + n + m <= usize::MAX,
            cur@.len() == i + j,
            coins.len() == n + m,
            coins.skip(i + j) == merge(pn, pk, i as nat, j as nat),
            forall|k: int| 0 <= k < i + j ==> cur@[k] as nat == coins[k].weight,
            forall|x: nat| x < base ==> mask@.contains(x) == old(mask)@.contains(x),
            forall|x: nat|
                x >= base ==> (#[trigger] mask@.contains(x) == (x - base < i + j && coins[x
                    - base].package)),
        decreases (n - i) + (m - j),
    {
        let take_pure = if i < n {
            if j >= m {
                true
            } else {
                pure[i] <= prev[2 * j] + prev[2 * j + 1]
            }
        } else {
            false
        };
        proof {
            let rest = if take_pure {
                merge(pn, pk, (i + 1) as nat, j as nat)
            } else {
                merge(pn, pk, i as nat, (j + 1) as nat)
            };
            let head = coins.skip(i + j)[0];
            assert(coins[i + j] == head);
            assert(coins.skip(i + j + 1) =~= coins.skip(i + j).skip(1));
            assert(coins.skip(i + j).skip(1) =~= rest);
            if j < m {
                assert(pk[j as int] == prev@[2 * j] + prev@[2 * j + 1]);
            }
            if i < n {
                assert(pn[i as int] == pure@[i as int]);
            }
        }
        if take_pure {
            cur.push(pure[i]);
            i += 1;
        } else {
            cur.push(prev[2 * j] + prev[2 * j + 1]);
            mask.insert(base + i + j);
            j += 1;
        }
    }
    proof {
        assert(word_values(cur@) =~= weights(coins));
    }
}

/// Builds the levels above the symbols' own coins and returns the record of
/// their packages with the number of the top level.
fn build_levels(pure: &Vec<u64>, max_length: usize) -> (r: (Bitset, usize))
    requires
        3 <= pure@.len(),
        2 <= max_length <= 32,
        2 * pure@.len() * max_length <= usize::MAX,
        forall|k: int| 0 <= k < pure@.len() ==> pure@[k] <= u32::MAX,
    ensures
        r.1 == top_level(word_values(pure@), (max_length - 1) as nat, 0),
        r.1 <= max_length - 1,
        forall|d: nat| 1 <= d <= r.1 ==> marks_level(r.0@, word_values(pure@), d),
{
    let n = pure.len();
    let limit = max_length - 1;
    let ghost pn = word_values(pure@);
    proof {
        assert(2 * n * limit <= 2 * n * max_length) by (nonlinear_arith)
            requires
                limit <= max_length,
                n >= 0,
        ;
        assert(2 * n <= 2 * n * max_length) by (nonlinear_arith)
            requires
                max_length >= 1,
                n >= 0,
        ;
    }
    let mut prev: Vec<u64> = Vec::new();
    let mut k: usize = 0;
    while k < n
        invariant
            k <= n == pure@.len(),
            prev@.len() == k,
            forall|x: int| 0 <= x < k ==> prev@[x] == pure@[x],
        decreases n - k,
    {
        prev.push(pure[k]);
        k += 1;
    }
    let mut cur: Vec<u64> = Vec::new();
    let mut mask = Bitset::with_capacity(2 * n * max_length);
    let mut denom: usize = 0;
    let mut done = false;
    proof {
        assert(word_values(prev@) =~= weights(level(pn, 0)));
    }
    while denom < limit && !done
        invariant
            n == pure@.len(),
            n >= 3,
            pn == word_values(pure@),
            forall|x: int| 0 <= x < pure@.len() ==> pure@[x] <= u32::MAX,
            limit == max_length - 1,
            max_length <= 32,
            2 * n * max_length <= usize::MAX,
            denom <= limit,
            word_values(prev@) == weights(level(pn, denom as nat)),
            !done ==> top_level(pn, limit as nat, 0) == top_level(pn, limit as nat, denom as nat),
            !done && denom > 0 ==> weights(level(pn, denom as nat)) != weights(
                level(pn, (denom - 1) as nat),
            ),
            done ==> top_level(pn, limit as nat, 0) == denom,
            forall|d: nat| 1 <= d <= denom ==> marks_level(mask@, pn, d),
            forall|i: nat| i >= 2 * n * denom ==> !mask@.contains(i),
        decreases limit - denom,
    {
        let ghost below = level(pn, denom as nat);
        let ghost above = level(pn, (denom + 1) as nat);
        let ghost mask0 = mask@;
        proof {
            lemma_level_len(pn, denom as nat);
            lemma_level_size(n as nat, denom as nat);
            lemma_level_len(pn, (denom + 1) as nat);
            lemma_level_size(n as nat, (denom + 1) as nat);
            lemma2_to64();
            if denom < 30 {
                lemma_pow2_strictly_increases(denom as nat, 30);
            }
            assert forall|x: int| 0 <= x < prev@.len() implies prev@[x] <= u64::MAX / 2 by {
                lemma_level_weight(pn, u32::MAX as nat, denom as nat, x);
                assert(prev@[x] as nat == weights(below)[x]);
                assert(pow2(denom as nat) * (u32::MAX as nat) <= 0x4000_0000 * 0xFFFF_FFFF)
                    by (nonlinear_arith)
                    requires
                        pow2(denom as nat) <= 0x4000_0000,
                ;
            }
            assert(2 * n * denom + 2 * n <= 2 * n * max_length) by (nonlinear_arith)
                requires
                    denom + 1 <= max_length,
                    n >= 0,
            ;
        }
        let base = 2 * n * denom;
        merge_level(pure, &prev, &mut cur, &mut mask, base);
        core::mem::swap(&mut cur, &mut prev);
        denom += 1;
        proof {
            assert(word_values(prev@) == weights(above));
            assert(word_values(cur@) == weights(below));
            assert(top_level(pn, limit as nat, 0) == top_level(pn, limit as nat, denom as nat));
            assert(2 * n * denom == base + 2 * n) by (nonlinear_arith)
                requires
                    base == 2 * n * (denom - 1),
            ;
            assert forall|d: nat| 1 <= d <= denom implies marks_level(mask@, pn, d) by {
                if d < denom {
                    assert(marks_level(mask0, pn, d));
                    assert(2 * n * (d - 1) + 2 * n <= base) by (nonlinear_arith)
                        requires
                            d + 1 <= denom,
                            base == 2 * n * (denom - 1),
                            n >= 0,
                    ;
                }
            }
        }
        if same_words(&cur, &prev) {
            done = true;
            proof {
                assert(word_values(cur@) == word_values(prev@));
            }
        } else {
            proof {
                if word_values(cur@) == word_values(prev@) {
                    assert forall|x: int| 0 <= x < cur@.len() implies cur@[x] == prev@[x] by {
                        assert(word_values(cur@)[x] == word_values(prev@)[x]);
                    }
                    assert(cur@.len() == word_values(cur@).len());
                    assert(prev@.len() == word_values(prev@).len());
                    assert(cur@ =~= prev@);
                }
            }
        }
    }
    (mask, denom)
}

/// Adds 1 to each of the first `count` lengths.
fn bump(lengths: &mut Vec<u8>, count: usize)
    requires
        count <= old(lengths)@.len(),
        forall|k: int| 0 <= k < count ==> old(lengths)@[k] < 255,
    ensures
        final(lengths)@.len() == old(lengths)@.len(),
        forall|k: int|
            0 <= k < old(lengths)@.len() ==> final(lengths)@[k] == old(lengths)@[k] + (if k
                < count { 1int } else { 0int }),
{
    let mut k: usize = 0;
    while k < count
        invariant
            k <= count <= lengths@.len(),
            lengths@.len() == old(lengths)@.len(),
            forall|x: int|
                0 <= x < lengths@.len() ==> lengths@[x] == old(lengths)@[x] + (if x < k {
                    1int
                } else {
                    0int
                }),
            forall|x: int| 0 <= x < count ==> old(lengths)@[x] < 255,
        decreases count - k,
    {
        let v = lengths[k];
        lengths[k] = v + 1;
        k += 1;
    }
}

/// Reads the lengths of the symbols, in sorted order, off the record of
/// packages, from the top level down.
fn recover_lengths(mask: &Bitset, n: usize, top: usize, Ghost(pure): Ghost<Seq<nat>>) -> (lengths:
    Vec<u8>)
    requires
        3 <= n == pure.len(),
        1 <= top <= 31,
        2 * n * (top + 1) <= usize::MAX,
        2 * (n - 1) <= level(pure, top as nat).len(),
        forall|d: nat| 1 <= d <= top ==> marks_level(mask@, pure, d),
    ensures
        lengths@.len() == n,
        forall|j: int|
            0 <= j < n ==> lengths@[j] as nat == coin_count(
                pure,
                top as nat,
                (2 * (n - 1)) as nat,
                j as nat,
            ),
{
    let mut lengths: Vec<u8> = Vec::new();
    let mut k: usize = 0;
    while k < n
        invariant
            k <= n,
            lengths@.len() == k,
            forall|x: int| 0 <= x < k ==> lengths@[x] == 0,
        decreases n - k,
    {
        lengths.push(0);
        k += 1;
    }
    proof {
        assert(2 * n <= 2 * n * (top + 1)) by (nonlinear_arith)
            requires
                top >= 0,
                n >= 0,
        ;
    }
    let mut r: usize = 2 * (n - 1);
    let mut d: usize = top;
    let ghost goal = (2 * (n - 1)) as nat;
    while d > 0
        invariant
            3 <= n == pure.len(),
            d <= top <= 31,
            2 * n * (top + 1) <= usize::MAX,
            lengths@.len() == n,
            r <= level(pure, d as nat).len(),
            r <= 2 * n,
            forall|x: nat| 1 <= x <= top ==> marks_level(mask@, pure, x),
            forall|j: int| 0 <= j < n ==> lengths@[j] <= top - d,
            forall|j: int|
                0 <= j < n ==> lengths@[j] as nat + coin_count(pure, d as nat, r as nat, j as nat)
                    == coin_count(pure, top as nat, goal, j as nat),
        decreases d,
    {
        let ghost coins = level(pure, d as nat);
        let ghost below = weights(level(pure, (d - 1) as nat));
        proof {
            assert(2 * n * (d - 1) + 2 * n <= 2 * n * (top + 1)) by (nonlinear_arith)
                requires
                    d <= top,
                    n >= 0,
            ;
            assert(marks_level(mask@, pure, d as nat));
        }
        let base = 2 * n * (d - 1);
        let merged = mask.count_ones_sliced(base, base + r);
        proof {
            lemma_count_marks(mask@, coins, base as nat, r as nat);
            lemma_merge_counts(pure, packages(below), 0, 0, r as nat);
            lemma_level_len(pure, (d - 1) as nat);
            lemma_level_size(n as nat, (d - 1) as nat);
        }
        let p = r - merged;
        bump(&mut lengths, p);
        r = 2 * merged;
        d -= 1;
    }
    proof {
        lemma_level_len(pure, 0);
    }
    bump(&mut lengths, r);
    lengths
}

/// Code lengths of at most `max_length` bits for symbols of the given
/// frequencies, as cheap in total as such lengths can be.
///
/// A symbol that does not occur gets length 0. The construction is the
/// package-merge algorithm; `spec_package_merge` says which lengths it gives.
///
/// The limit is at most 32, the width of a code: a package of the top level
/// may weigh `2^(max_length - 1)` times as much as a symbol, and weights are
/// kept in 64 bits. The record of packages has `2 * freqs.len()` places for
/// each level, which must be countable in a `usize`.
pub fn package_merge(freqs: &[u32], max_length: usize) -> (r: Result<Vec<u8>, PackageMergeError>)
    requires
        max_length <= 32,
        2 * freqs@.len() * max_length <= usize::MAX,
    ensures
        match r {
            Ok(lengths) => spec_package_merge(freqs@, max_length as nat) == Ok::<
                Seq<nat>,
                PackageMergeError,
            >(byte_values(lengths@)),
            Err(e) => spec_package_merge(freqs@, max_length as nat) == Err::<
                Seq<nat>,
                PackageMergeError,
            >(e),
        },
{
    let size = freqs.len();
    let order = sort_symbols(freqs);
    let n = order.len();
    if size <= 2 || n <= 2 {
        return Ok(presence_lengths(freqs, 1));
    }
    proof {
        lemma2_to64();
        lemma_u64_pow2_no_overflow(max_length as nat);
        lemma_u64_shl_is_mul(1, max_length as u64);
    }
    let cap: u64 = 1u64 << max_length;
    if cap < size as u64 {
        return Err(PackageMergeError::InvalidMaxLength);
    }
    proof {
        assert(max_length >= 2) by {
            if max_length < 2 {
                assert(pow2(max_length as nat) <= 2);
            }
        }
        lemma_pow2_unfold(max_length as nat);
        lemma_u64_shr_is_div(cap, 1);
    }
    if (cap >> 1) < size as u64 {
        return Ok(presence_lengths(freqs, max_length as u8));
    }
    let mut pure: Vec<u64> = Vec::new();
    let mut k: usize = 0;
    while k < n
        invariant
            k <= n == order@.len(),
            pure@.len() == k,
            forall|x: int| 0 <= x < order@.len() ==> #[trigger] order@[x] < freqs@.len(),
            forall|x: int| 0 <= x < k ==> pure@[x] == freqs@[order@[x] as int],
        decreases n - k,
    {
        pure.push(freqs[order[k]] as u64);
        k += 1;
    }
    let ghost pn = word_values(pure@);
    proof {
        assert(pn =~= pure_weights(freqs@, order@));
        lemma_count_nonzero_bound(freqs@);
        assert(2 * n * max_length <= 2 * size * max_length) by (nonlinear_arith)
            requires
                n <= size,
                max_length >= 0,
        ;
        lemma_count_nonzero_bound(freqs@);
    }
    let (mask, top) = build_levels(&pure, max_length);
    proof {
        lemma_top_level_size(pn, (max_length - 1) as nat, 0);
        lemma_level_len(pn, top as nat);
        assert(2 * n * (top + 1) <= 2 * n * max_length) by (nonlinear_arith)
            requires
                top + 1 <= max_length,
                n >= 0,
        ;
    }
    let lengths = recover_lengths(&mask, n, top, Ghost(pn));
    let mut result: Vec<u8> = Vec::new();
    let mut k: usize = 0;
    while k < size
        invariant
            k <= size,
            result@.len() == k,
            forall|x: int| 0 <= x < k ==> result@[x] == 0,
        decreases size - k,
    {
        result.push(0);
        k += 1;
    }
    let ghost values = byte_values(lengths@);
    proof {
        assert(values =~= sorted_lengths(pn, max_length as nat));
        assert(byte_values(result@) =~= scatter(order@, values, size as nat, 0));
    }
    let mut k: usize = 0;
    while k < n
        invariant
            k <= n == order@.len(),
            n == lengths@.len(),
            result@.len() == size == freqs@.len(),
            values == byte_values(lengths@),
            forall|x: int| 0 <= x < order@.len() ==> #[trigger] order@[x] < freqs@.len(),
            byte_values(result@) == scatter(order@, values, size as nat, k as nat),
        decreases n - k,
    {
        let ghost before = byte_values(result@);
        result[order[k]] = lengths[k];
        proof {
            assert(byte_values(result@) =~= before.update(order@[k as int] as int, values[k as int]));
        }
        k += 1;
    }
    Ok(result)
}

pub proof fn lemma_count_nonzero_bound(freqs: Seq<u32>)
    ensures
        count_nonzero(freqs) <= freqs.len(),
    decreases freqs.len(),
{
    if freqs.len() > 0 {
        lemma_count_nonzero_bound(freqs.drop_last());
    }
}

/// The top level has coins enough for all symbols but one to be taken twice.
pub proof fn lemma_top_level_size(pure: Seq<nat>, limit: nat, d: nat)
    requires
        pure.len() >= 1,
        d <= limit,
        pure.len() <= pow2(limit),
    ensures
        d <= top_level(pure, limit, d) <= limit,
        top_level(pure, limit, d) >= 1 || limit == 0,
        level_size(pure.len(), top_level(pure, limit, d)) >= 2 * (pure.len() - 1),
    decreases limit - d,
{
    let n = pure.len();
    lemma_level_size(n, d);
    lemma_pow2_pos(d);
    if d >= limit {
        assert((n - 1) / (pow2(d) as int) == 0) by {
            vstd::arithmetic::div_mod::lemma_basic_div(n - 1, pow2(d) as int);
        }
    } else if d > 0 && weights(level(pure, d)) == weights(level(pure, (d - 1) as nat)) {
        lemma_level_len(pure, d);
        lemma_level_len(pure, (d - 1) as nat);
        assert(weights(level(pure, d)).len() == weights(level(pure, (d - 1) as nat)).len());
        lemma_level_size(n, (d - 1) as nat);
        lemma_pow2_unfold(d);
        lemma_pow2_pos((d - 1) as nat);
        let q = pow2((d - 1) as nat) as int;
        let u = (n - 1) / q;
        assert((n - 1) / (2 * q) == u / 2) by {
            vstd::arithmetic::div_mod::lemma_div_denominator(n - 1, q, 2);
            assert(q * 2 == 2 * q);
        }
    } else {
        lemma_top_level_size(pure, limit, d + 1);
    }
}

} // verus!
