//! Why the lengths of package-merge are those of a prefix code.

use vstd::prelude::*;
use vstd::arithmetic::power2::{pow2, lemma_pow2_unfold, lemma2_to64};
use crate::kraft::{kraft_sum, kraft_holds, lemma_kraft_update, lemma_kraft_zero};
use crate::package_merge::{
    Coin, PackageMergeError, count_nonzero, presence, insert_at, sorted_symbols, pure_weights,
    packages, merge, weights, level, top_level, pure_count, coin_count, sorted_lengths, scatter,
    spec_package_merge, lemma_merge_len, lemma_level_len, lemma_merge_counts, lemma_pure_count_cons,
    lemma_sorted_symbols, lemma_top_level_size, lemma_count_nonzero_bound,
};

verus! {

/// Whether the weights never fall along the sequence.
pub open spec fn ascending(s: Seq<nat>) -> bool {
    forall|a: int, b: int| 0 <= a <= b < s.len() ==> s[a] <= s[b]
}

/// Whether every weight is at least 1.
pub open spec fn positive(s: Seq<nat>) -> bool {
    forall|a: int| 0 <= a < s.len() ==> s[a] >= 1
}

proof fn lemma_packages_ascending(below: Seq<nat>)
    requires
        ascending(below),
        positive(below),
    ensures
        ascending(packages(below)),
        positive(packages(below)),
{
    let pk = packages(below);
    assert forall|a: int, b: int| 0 <= a <= b < pk.len() implies pk[a] <= pk[b] by {
        assert(below[2 * a] <= below[2 * b]);
        assert(below[2 * a + 1] <= below[2 * b + 1]);
    }
}

/// A merge of ascending weights is ascending and starts no lower than both
/// of its sides.
proof fn lemma_merge_ascending(pure: Seq<nat>, pk: Seq<nat>, i: nat, j: nat, floor: nat)
    requires
        ascending(pure),
        ascending(pk),
        i <= pure.len(),
        j <= pk.len(),
        i < pure.len() ==> floor <= pure[i as int],
        j < pk.len() ==> floor <= pk[j as int],
    ensures
        ascending(weights(merge(pure, pk, i, j))),
        forall|k: int| 0 <= k < merge(pure, pk, i, j).len() ==> merge(pure, pk, i, j)[k].weight >= floor,
    decreases (pure.len() - i) + (pk.len() - j),
{
    let all = merge(pure, pk, i, j);
    if i < pure.len() && (j >= pk.len() || pure[i as int] <= pk[j as int]) {
        let rest = merge(pure, pk, i + 1, j);
        lemma_merge_ascending(pure, pk, i + 1, j, pure[i as int]);
        assert forall|a: int, b: int| 0 <= a <= b < all.len() implies weights(all)[a] <= weights(
            all,
        )[b] by {
            if a > 0 {
                assert(weights(rest)[a - 1] <= weights(rest)[b - 1]);
            } else if b > 0 {
                assert(rest[b - 1].weight >= pure[i as int]);
            }
        }
        assert forall|k: int| 0 <= k < all.len() implies all[k].weight >= floor by {
            if k > 0 {
                assert(rest[k - 1].weight >= pure[i as int]);
            }
        }
    } else if j < pk.len() {
        let rest = merge(pure, pk, i, j + 1);
        lemma_merge_ascending(pure, pk, i, j + 1, pk[j as int]);
        assert forall|a: int, b: int| 0 <= a <= b < all.len() implies weights(all)[a] <= weights(
            all,
        )[b] by {
            if a > 0 {
                assert(weights(rest)[a - 1] <= weights(rest)[b - 1]);
            } else if b > 0 {
                assert(rest[b - 1].weight >= pk[j as int]);
            }
        }
        assert forall|k: int| 0 <= k < all.len() implies all[k].weight >= floor by {
            if k > 0 {
                assert(rest[k - 1].weight >= pk[j as int]);
            }
        }
    }
}

/// Every level is ascending and positive when the symbols' weights are.
proof fn lemma_level_ascending(pure: Seq<nat>, d: nat)
    requires
        ascending(pure),
        positive(pure),
    ensures
        ascending(weights(level(pure, d))),
        positive(weights(level(pure, d))),
    decreases d,
{
    if d == 0 {
        assert(weights(level(pure, 0)) =~= pure);
    } else {
        let below = weights(level(pure, (d - 1) as nat));
        lemma_level_ascending(pure, (d - 1) as nat);
        lemma_packages_ascending(below);
        lemma_merge_ascending(pure, packages(below), 0, 0, 1);
    }
}

/// What the first `r` coins of a merge are: the next symbols' coins and the
/// next packages, as many of each as `pure_count` says, and how the coins
/// just past them compare.
proof fn lemma_merge_prefix(pure: Seq<nat>, pk: Seq<nat>, i: nat, j: nat, r: nat)
    requires
        ascending(pure),
        ascending(pk),
        i <= pure.len(),
        j <= pk.len(),
        r <= merge(pure, pk, i, j).len(),
    ensures
        ({
            let all = merge(pure, pk, i, j);
            let p = pure_count(all, r);
            let q = r - p;
            &&& p <= pure.len() - i
            &&& 0 <= q <= pk.len() - j
            &&& (i + p < pure.len() && q >= 1 ==> pk[j + q - 1] < pure[(i + p) as int])
            &&& (j + q < pk.len() && p >= 1 ==> pure[i + p - 1] <= pk[j + q])
            &&& (r >= 1 && all[r - 1].package ==> q >= 1 && all[r - 1].weight == pk[j + q - 1])
            &&& (r >= 1 && !all[r - 1].package ==> p >= 1 && all[r - 1].weight == pure[i + p - 1])
        }),
    decreases (pure.len() - i) + (pk.len() - j),
{
    let all = merge(pure, pk, i, j);
    lemma_merge_len(pure, pk, i, j);
    lemma_merge_counts(pure, pk, i, j, r);
    if r > 0 {
        if i < pure.len() && (j >= pk.len() || pure[i as int] <= pk[j as int]) {
            let rest = merge(pure, pk, i + 1, j);
            lemma_merge_len(pure, pk, i + 1, j);
            lemma_merge_prefix(pure, pk, i + 1, j, (r - 1) as nat);
            lemma_pure_count_cons(Coin { weight: pure[i as int], package: false }, rest, r);
            if r >= 2 {
                assert(all[r - 1] == rest[r - 2]);
            }
        } else {
            let rest = merge(pure, pk, i, j + 1);
            lemma_merge_len(pure, pk, i, j + 1);
            lemma_merge_prefix(pure, pk, i, j + 1, (r - 1) as nat);
            lemma_pure_count_cons(Coin { weight: pk[j as int], package: true }, rest, r);
            if r >= 2 {
                assert(all[r - 1] == rest[r - 2]);
            }
        }
    }
}

/// From place `2n - 3` on, no coin of a level is lighter than the heaviest
/// symbol; and from the package at place `n - 2` on, every package of a level
/// is heavier.
proof fn lemma_heavy_coins(pure: Seq<nat>, d: nat)
    requires
        pure.len() >= 3,
        ascending(pure),
        positive(pure),
    ensures
        forall|x: int|
            2 * pure.len() - 3 <= x < level(pure, d).len() ==> level(pure, d)[x].weight
                >= pure.last(),
        forall|k: int|
            pure.len() - 2 <= k < packages(weights(level(pure, d))).len() ==> packages(
                weights(level(pure, d)),
            )[k] > pure.last(),
    decreases d,
{
    let n = pure.len();
    let top_weight = pure.last();
    let coins = level(pure, d);
    if d > 0 {
        let below = weights(level(pure, (d - 1) as nat));
        let pk = packages(below);
        lemma_heavy_coins(pure, (d - 1) as nat);
        lemma_level_ascending(pure, (d - 1) as nat);
        lemma_packages_ascending(below);
        lemma_merge_len(pure, pk, 0, 0);
        assert forall|x: int| 2 * n - 3 <= x < coins.len() implies coins[x].weight
            >= top_weight by {
            let r = (x + 1) as nat;
            lemma_merge_prefix(pure, pk, 0, 0, r);
            let p = pure_count(coins, r);
            let q = r - p;
            if coins[x].package {
                if q - 1 < n - 2 {
                    lemma_merge_prefix(pure, pk, 0, 0, (r - 1) as nat);
                    assert(pure_count(coins, (r - 1) as nat) == p);
                }
            } else {
                if p < n {
                    assert(pk[q - 1] < pure[p as int]);
                    assert(pure[p as int] <= top_weight);
                    assert(pk[q - 1] > top_weight);
                } else {
                    assert(p == n);
                }
            }
        }
    }
    lemma_level_ascending(pure, d);
    let w = weights(coins);
    let up = packages(w);
    assert forall|k: int| n - 2 <= k < up.len() implies up[k] > top_weight by {
        assert(w[2 * k + 1] == coins[2 * k + 1].weight);
        assert(w[2 * k] >= 1);
    }
}

/// Every symbol has a coin among the first `2 (n - 1)` coins of a level
/// above the lowest.
proof fn lemma_all_taken(pure: Seq<nat>, d: nat)
    requires
        pure.len() >= 3,
        ascending(pure),
        positive(pure),
        d >= 1,
        2 * (pure.len() - 1) <= level(pure, d).len(),
    ensures
        pure_count(level(pure, d), (2 * (pure.len() - 1)) as nat) == pure.len(),
{
    let n = pure.len();
    let below = weights(level(pure, (d - 1) as nat));
    let pk = packages(below);
    let r = (2 * (n - 1)) as nat;
    lemma_heavy_coins(pure, (d - 1) as nat);
    lemma_level_ascending(pure, (d - 1) as nat);
    lemma_packages_ascending(below);
    lemma_merge_prefix(pure, pk, 0, 0, r);
    let p = pure_count(level(pure, d), r);
    if p < n {
        let q = r - p;
        assert(pk[q - 1] < pure[p as int]);
        assert(pure[p as int] <= pure.last());
    }
}

/// No symbol has more coins in a level and those below than there are levels.
proof fn lemma_coin_count_bound(pure: Seq<nat>, d: nat, r: nat, j: nat)
    ensures
        coin_count(pure, d, r, j) <= d + 1,
    decreases d,
{
    if d > 0 {
        let p = pure_count(level(pure, d), r);
        lemma_coin_count_bound(pure, (d - 1) as nat, (2 * (r - p)) as nat, j);
    }
}

/// The Kraft sum where a length of 0 counts as a code of no bits.
spec fn full_sum(a: Seq<nat>, m: nat) -> nat
    decreases a.len(),
{
    if a.len() == 0 {
        0
    } else {
        full_sum(a.drop_last(), m) + pow2((m - a.last()) as nat)
    }
}

/// `a` with 1 added to each of the first `p` lengths.
spec fn bumped(a: Seq<nat>, p: nat) -> Seq<nat> {
    Seq::new(a.len(), |j: int| a[j] + (if j < p { 1nat } else { 0nat }))
}

/// One more bit for symbols with codes shorter than `t` halves their shares,
/// which frees at least `2^(m - t)` for each.
proof fn lemma_bump_frees(a: Seq<nat>, p: nat, t: nat, m: nat)
    requires
        1 <= t <= m,
        p <= a.len(),
        forall|j: int| 0 <= j < a.len() ==> a[j] <= m,
        forall|j: int| 0 <= j < p ==> a[j] <= t - 1,
    ensures
        full_sum(bumped(a, p), m) + p * pow2((m - t) as nat) <= full_sum(a, m),
    decreases a.len(),
{
    let b = bumped(a, p);
    if a.len() > 0 {
        let last = (a.len() - 1) as int;
        let q = if p < a.len() { p } else { (a.len() - 1) as nat };
        lemma_bump_frees(a.drop_last(), q, t, m);
        assert(b.drop_last() =~= bumped(a.drop_last(), q));
        if p == a.len() {
            let e = (m - a[last] - 1) as nat;
            lemma_pow2_unfold((m - a[last]) as nat);
            if m - t < e {
                vstd::arithmetic::power2::lemma_pow2_strictly_increases((m - t) as nat, e);
            }
            assert(p * pow2((m - t) as nat) == q * pow2((m - t) as nat) + pow2((m - t) as nat))
                by (nonlinear_arith)
                requires
                    p == q + 1,
            ;
        }
    } else {
        assert(p * pow2((m - t) as nat) == 0) by (nonlinear_arith)
            requires
                p == 0,
        ;
    }
}

/// Taking the first `r` coins of level `d`, for symbols that already have
/// lengths below `t` with a sum of at most `2^m + r 2^(m - t)`, leaves a sum of
/// at most `2^m`.
proof fn lemma_descend(pure: Seq<nat>, d: nat, r: nat, a: Seq<nat>, t: nat, m: nat)
    requires
        pure.len() >= 1,
        a.len() == pure.len(),
        r <= level(pure, d).len(),
        t >= 1,
        t + d <= m,
        forall|j: int| 0 <= j < a.len() ==> a[j] <= t - 1,
        full_sum(a, m) <= pow2(m) + r * pow2((m - t) as nat),
    ensures
        full_sum(Seq::new(a.len(), |j: int| a[j] + coin_count(pure, d, r, j as nat)), m) <= pow2(
            m,
        ),
    decreases d,
{
    let fin = Seq::new(a.len(), |j: int| a[j] + coin_count(pure, d, r, j as nat));
    lemma_level_len(pure, d);
    if d == 0 {
        lemma_bump_frees(a, r, t, m);
        assert(fin =~= bumped(a, r));
    } else {
        let below = weights(level(pure, (d - 1) as nat));
        let pk = packages(below);
        lemma_merge_counts(pure, pk, 0, 0, r);
        lemma_merge_len(pure, pk, 0, 0);
        let p = pure_count(level(pure, d), r);
        let next = (2 * (r - p)) as nat;
        let b = bumped(a, p);
        lemma_bump_frees(a, p, t, m);
        lemma_pow2_unfold((m - t) as nat);
        let unit = pow2((m - t - 1) as nat);
        assert(r * pow2((m - t) as nat) - p * pow2((m - t) as nat) == next * unit)
            by (nonlinear_arith)
            requires
                pow2((m - t) as nat) == 2 * unit,
                next == 2 * (r - p),
                p <= r,
        ;
        lemma_descend(pure, (d - 1) as nat, next, b, t + 1, m);
        assert(fin =~= Seq::new(
            b.len(),
            |j: int| b[j] + coin_count(pure, (d - 1) as nat, next, j as nat),
        ));
    }
}

proof fn lemma_full_sum_zeros(n: nat, m: nat)
    ensures
        full_sum(Seq::new(n, |j: int| 0nat), m) == n * pow2(m),
    decreases n,
{
    let z = Seq::new(n, |j: int| 0nat);
    if n > 0 {
        lemma_full_sum_zeros((n - 1) as nat, m);
        assert(z.drop_last() =~= Seq::new((n - 1) as nat, |j: int| 0nat));
        assert(n * pow2(m) == (n - 1) * pow2(m) + pow2(m)) by (nonlinear_arith)
            requires
                n >= 1,
        ;
    } else {
        assert(n * pow2(m) == 0) by (nonlinear_arith)
            requires
                n == 0,
        ;
    }
}

/// Where no length is 0, the two sums are the same.
proof fn lemma_full_sum_is_kraft(a: Seq<nat>, m: nat)
    requires
        forall|j: int| 0 <= j < a.len() ==> 1 <= #[trigger] a[j] && a[j] <= m,
    ensures
        full_sum(a, m) == kraft_sum(a, m),
    decreases a.len(),
{
    if a.len() > 0 {
        lemma_full_sum_is_kraft(a.drop_last(), m);
    }
}

/// Whether the symbols of `order` are all different and below `size`.
pub open spec fn distinct_symbols(order: Seq<usize>, size: nat) -> bool {
    &&& forall|k: int| 0 <= k < order.len() ==> #[trigger] order[k] < size
    &&& forall|a: int, b: int| 0 <= a < b < order.len() ==> order[a] != order[b]
}

proof fn lemma_scatter_values(order: Seq<usize>, values: Seq<nat>, size: nat, k: nat, i: int)
    requires
        distinct_symbols(order, size),
        k <= order.len() == values.len(),
        0 <= i < size,
    ensures
        scatter(order, values, size, k).len() == size,
        (forall|x: int| 0 <= x < k ==> order[x] != i) ==> scatter(order, values, size, k)[i] == 0,
        forall|x: int| 0 <= x < k && order[x] == i ==> scatter(order, values, size, k)[i] == values[x],
    decreases k,
{
    if k > 0 {
        lemma_scatter_values(order, values, size, (k - 1) as nat, i);
        let x0 = order[k - 1];
        lemma_scatter_values(order, values, size, (k - 1) as nat, x0 as int);
    }
}

proof fn lemma_scatter_kraft(order: Seq<usize>, values: Seq<nat>, size: nat, k: nat, m: nat)
    requires
        distinct_symbols(order, size),
        k <= order.len() == values.len(),
        forall|j: int| 0 <= j < values.len() ==> 1 <= #[trigger] values[j] && values[j] <= m,
    ensures
        kraft_sum(scatter(order, values, size, k), m) == kraft_sum(values.take(k as int), m),
    decreases k,
{
    if k == 0 {
        lemma_kraft_zero(scatter(order, values, size, 0), m);
    } else {
        let before = scatter(order, values, size, (k - 1) as nat);
        let i = order[k - 1] as int;
        lemma_scatter_kraft(order, values, size, (k - 1) as nat, m);
        lemma_scatter_values(order, values, size, (k - 1) as nat, i);
        lemma_kraft_update(before, m, i, values[k - 1]);
        assert(values.take(k as int).drop_last() =~= values.take(k - 1));
    }
}

proof fn lemma_insert_at_splits(freqs: Seq<u32>, order: Seq<usize>, f: u32)
    requires
        forall|a: int, b: int|
            0 <= a <= b < order.len() ==> freqs[order[a] as int] <= freqs[order[b] as int],
    ensures
        insert_at(freqs, order, f) <= order.len(),
        forall|k: int| 0 <= k < insert_at(freqs, order, f) ==> freqs[order[k] as int] <= f,
        forall|k: int| insert_at(freqs, order, f) <= k < order.len() ==> freqs[order[k] as int] > f,
    decreases order.len(),
{
    if order.len() > 0 {
        let init = order.drop_last();
        if freqs[order.last() as int] <= f {
        } else {
            assert forall|a: int, b: int| 0 <= a <= b < init.len() implies freqs[init[a] as int]
                <= freqs[init[b] as int] by {
                assert(init[a] == order[a] && init[b] == order[b]);
            }
            lemma_insert_at_splits(freqs, init, f);
            assert forall|k: int| 0 <= k < insert_at(freqs, order, f) implies freqs[order[k] as int]
                <= f by {
                assert(init[k] == order[k]);
            }
            assert forall|k: int| insert_at(freqs, order, f) <= k < order.len() implies freqs[order[k] as int]
                > f by {
                if k < init.len() {
                    assert(init[k] == order[k]);
                }
            }
        }
    }
}

/// The sorted symbols are those in use, each once, by ascending frequency.
#[verifier::rlimit(30)]
pub proof fn lemma_sorted_symbols_ordered(freqs: Seq<u32>, n: nat)
    requires
        n <= freqs.len() <= usize::MAX,
    ensures
        distinct_symbols(sorted_symbols(freqs, n), n),
        forall|k: int|
            0 <= k < sorted_symbols(freqs, n).len() ==> freqs[sorted_symbols(freqs, n)[k] as int]
                != 0,
        forall|i: int|
            0 <= i < n && freqs[i] != 0 ==> exists|k: int|
                0 <= k < sorted_symbols(freqs, n).len() && sorted_symbols(freqs, n)[k] == i,
        forall|a: int, b: int|
            0 <= a <= b < sorted_symbols(freqs, n).len() ==> freqs[sorted_symbols(
                freqs,
                n,
            )[a] as int] <= freqs[sorted_symbols(freqs, n)[b] as int],
    decreases n,
{
    if n > 0 {
        let before = sorted_symbols(freqs, (n - 1) as nat);
        let after = sorted_symbols(freqs, n);
        lemma_sorted_symbols_ordered(freqs, (n - 1) as nat);
        let f = freqs[n - 1];
        if f != 0 {
            lemma_insert_at_splits(freqs, before, f);
            let p = insert_at(freqs, before, f) as int;
            let s = (n - 1) as usize;
            assert(after == before.insert(p, s));
            assert forall|k: int| 0 <= k < after.len() implies #[trigger] after[k] < n
                && freqs[after[k] as int] != 0 by {
                if k < p {
                    assert(after[k] == before[k]);
                } else if k > p {
                    assert(after[k] == before[k - 1]);
                }
            }
            assert forall|a: int, b: int| 0 <= a < b < after.len() implies after[a] != after[b] by {
                let xa = if a < p { a } else { a - 1 };
                let xb = if b < p { b } else { b - 1 };
                if a != p {
                    assert(after[a] == before[xa]);
                }
                if b != p {
                    assert(after[b] == before[xb]);
                }
            }
            assert forall|a: int, b: int| 0 <= a <= b < after.len() implies freqs[after[a] as int]
                <= freqs[after[b] as int] by {
                let xa = if a < p { a } else { a - 1 };
                let xb = if b < p { b } else { b - 1 };
                if a != p {
                    assert(after[a] == before[xa]);
                }
                if b != p {
                    assert(after[b] == before[xb]);
                }
            }
            assert forall|i: int| 0 <= i < n && freqs[i] != 0 implies exists|k: int|
                0 <= k < after.len() && after[k] == i by {
                if i == n - 1 {
                    assert(after[p] == i);
                } else {
                    let k0 = choose|k: int| 0 <= k < before.len() && before[k] == i;
                    if k0 < p {
                        assert(after[k0] == i);
                    } else {
                        assert(after[k0 + 1] == i);
                    }
                }
            }
        } else {
            assert forall|k: int| 0 <= k < after.len() implies #[trigger] after[k] < n by {
                assert(before[k] < n - 1);
            }
        }
    }
}

proof fn lemma_presence_kraft(freqs: Seq<u32>, length: nat, m: nat)
    requires
        1 <= length <= m,
    ensures
        kraft_sum(presence(freqs, length), m) == count_nonzero(freqs) * pow2((m - length) as nat),
    decreases freqs.len(),
{
    let unit = pow2((m - length) as nat);
    if freqs.len() > 0 {
        lemma_presence_kraft(freqs.drop_last(), length, m);
        assert(presence(freqs, length).drop_last() =~= presence(freqs.drop_last(), length));
        let c = count_nonzero(freqs.drop_last());
        assert((c + 1) * unit == c * unit + unit) by (nonlinear_arith);
    } else {
        assert(0 * unit == 0) by (nonlinear_arith);
    }
}

/// A common length for all symbols in use is that of a prefix code when
/// there are codes enough of that length.
proof fn lemma_presence_holds(freqs: Seq<u32>, length: nat, m: nat)
    requires
        1 <= length <= m,
        count_nonzero(freqs) <= pow2(length),
    ensures
        presence(freqs, length).len() == freqs.len(),
        kraft_holds(presence(freqs, length), m),
        forall|i: int|
            0 <= i < freqs.len() ==> (freqs[i] != 0 <==> #[trigger] presence(freqs, length)[i]
                >= 1),
{
    let count = count_nonzero(freqs);
    let unit = pow2((m - length) as nat);
    lemma_presence_kraft(freqs, length, m);
    vstd::arithmetic::power2::lemma_pow2_adds(length, (m - length) as nat);
    assert(count * unit <= pow2(length) * unit) by (nonlinear_arith)
        requires
            count <= pow2(length),
    ;
}

/// The lengths read off the levels are those of a prefix code within the
/// limit, with a code for each symbol.
proof fn lemma_sorted_lengths_hold(pure: Seq<nat>, max_length: nat)
    requires
        pure.len() >= 3,
        ascending(pure),
        positive(pure),
        max_length >= 1,
        pure.len() <= pow2((max_length - 1) as nat),
    ensures
        sorted_lengths(pure, max_length).len() == pure.len(),
        forall|j: int|
            0 <= j < pure.len() ==> 1 <= #[trigger] sorted_lengths(pure, max_length)[j]
                && sorted_lengths(pure, max_length)[j] <= max_length,
        kraft_sum(sorted_lengths(pure, max_length), max_length) <= pow2(max_length),
{
    let n = pure.len();
    let limit = (max_length - 1) as nat;
    let top = top_level(pure, limit, 0);
    let goal = (2 * (n - 1)) as nat;
    let values = sorted_lengths(pure, max_length);
    lemma_pow2_unfold(max_length);
    assert(limit >= 1) by {
        if limit == 0 {
            lemma2_to64();
        }
    }
    lemma_top_level_size(pure, limit, 0);
    lemma_level_len(pure, top);
    lemma_all_taken(pure, top);
    assert forall|j: int| 0 <= j < n implies 1 <= #[trigger] values[j] && values[j]
        <= max_length by {
        lemma_coin_count_bound(pure, top, goal, j as nat);
    }
    let zero = Seq::new(n, |j: int| 0nat);
    lemma_full_sum_zeros(n, max_length);
    assert(n * pow2(max_length) == pow2(max_length) + goal * pow2((max_length - 1) as nat))
        by (nonlinear_arith)
        requires
            pow2(max_length) == 2 * pow2((max_length - 1) as nat),
            goal == 2 * (n - 1),
            n >= 1,
    ;
    lemma_descend(pure, top, goal, zero, 1, max_length);
    assert(values =~= Seq::new(n, |j: int| zero[j] + coin_count(pure, top, goal, j as nat)));
    lemma_full_sum_is_kraft(values, max_length);
}

/// Lengths handed out to different symbols keep their sum and their bounds.
proof fn lemma_scatter_holds(
    freqs: Seq<u32>,
    order: Seq<usize>,
    values: Seq<nat>,
    m: nat,
)
    requires
        distinct_symbols(order, freqs.len()),
        order.len() == values.len(),
        forall|j: int| 0 <= j < values.len() ==> 1 <= #[trigger] values[j] && values[j] <= m,
        kraft_sum(values, m) <= pow2(m),
        forall|k: int| 0 <= k < order.len() ==> freqs[#[trigger] order[k] as int] != 0,
        forall|i: int|
            0 <= i < freqs.len() && freqs[i] != 0 ==> exists|k: int|
                0 <= k < order.len() && order[k] == i,
    ensures
        scatter(order, values, freqs.len(), order.len()).len() == freqs.len(),
        kraft_holds(scatter(order, values, freqs.len(), order.len()), m),
        forall|i: int|
            0 <= i < freqs.len() ==> (freqs[i] != 0 <==> #[trigger] scatter(
                order,
                values,
                freqs.len(),
                order.len(),
            )[i] >= 1),
{
    let size = freqs.len();
    let n = order.len();
    let lengths = scatter(order, values, size, n);
    lemma_scatter_kraft(order, values, size, n, m);
    assert(values.take(n as int) =~= values);
    if size > 0 {
        lemma_scatter_values(order, values, size, n, 0);
    } else if n > 0 {
        assert(order[0] < size);
    }
    assert forall|i: int| 0 <= i < size implies lengths[i] <= m && (freqs[i] != 0
        <==> #[trigger] lengths[i] >= 1) by {
        lemma_scatter_values(order, values, size, n, i);
        if freqs[i] != 0 {
            let k = choose|k: int| 0 <= k < order.len() && order[k] == i;
            assert(lengths[i] == values[k]);
        } else {
            assert forall|x: int| 0 <= x < n implies order[x] != i by {
                assert(freqs[order[x] as int] != 0);
            }
        }
    }
}

/// The lengths that `spec_package_merge` gives make a prefix code within the
/// limit, with a code for each symbol in use and for no other.
///
/// This holds whenever lengths are owed at all: when the limit is at least 1,
/// and, with three or more symbols in use, allows a code for each of the
/// `freqs.len()` symbols.
pub proof fn lemma_package_merge_kraft(freqs: Seq<u32>, max_length: nat)
    requires
        freqs.len() <= usize::MAX,
        max_length >= 1,
        count_nonzero(freqs) >= 3 ==> freqs.len() <= pow2(max_length),
    ensures
        spec_package_merge(freqs, max_length) is Ok,
        ({
            let lengths = spec_package_merge(freqs, max_length)->Ok_0;
            &&& lengths.len() == freqs.len()
            &&& kraft_holds(lengths, max_length)
            &&& forall|i: int| 0 <= i < freqs.len() ==> (freqs[i] != 0 <==> lengths[i] >= 1)
        }),
{
    let size = freqs.len();
    let count = count_nonzero(freqs);
    let order = sorted_symbols(freqs, size);
    lemma_count_nonzero_bound(freqs);
    if size <= 2 || count <= 2 {
        assert(pow2(1) == 2) by {
            lemma2_to64();
        }
        lemma_presence_holds(freqs, 1, max_length);
    } else if pow2((max_length - 1) as nat) < size {
        lemma_presence_holds(freqs, max_length, max_length);
    } else {
        let pure = pure_weights(freqs, order);
        lemma_sorted_symbols(freqs, size);
        assert(freqs.take(size as int) =~= freqs);
        lemma_sorted_symbols_ordered(freqs, size);
        assert(ascending(pure));
        assert(positive(pure));
        lemma_sorted_lengths_hold(pure, max_length);
        lemma_scatter_holds(freqs, order, sorted_lengths(pure, max_length), max_length);
    }
}

/// With a single symbol in use, that symbol gets a code of one bit,
/// whatever the limit.
pub proof fn lemma_single_symbol(freqs: Seq<u32>, max_length: nat, i: int)
    requires
        count_nonzero(freqs) == 1,
        0 <= i < freqs.len(),
        freqs[i] != 0,
    ensures
        spec_package_merge(freqs, max_length) == Ok::<Seq<nat>, PackageMergeError>(
            presence(freqs, 1),
        ),
        presence(freqs, 1)[i] == 1,
{
}


// ---------------------------------------------------------------------------
// The codes of package-merge leave no code unused

/// One more bit for symbols whose codes have `t - 1` bits frees exactly
/// `2^(m - t)` for each.
proof fn lemma_bump_frees_all(a: Seq<nat>, p: nat, t: nat, m: nat)
    requires
        1 <= t <= m,
        p <= a.len(),
        forall|j: int| 0 <= j < a.len() ==> a[j] <= m,
        forall|j: int| 0 <= j < p ==> a[j] == t - 1,
    ensures
        full_sum(bumped(a, p), m) + p * pow2((m - t) as nat) == full_sum(a, m),
    decreases a.len(),
{
    let b = bumped(a, p);
    if a.len() > 0 {
        let last = (a.len() - 1) as int;
        let q = if p < a.len() { p } else { (a.len() - 1) as nat };
        lemma_bump_frees_all(a.drop_last(), q, t, m);
        assert(b.drop_last() =~= bumped(a.drop_last(), q));
        if p == a.len() {
            lemma_pow2_unfold((m - a[last]) as nat);
            assert(p * pow2((m - t) as nat) == q * pow2((m - t) as nat) + pow2((m - t) as nat))
                by (nonlinear_arith)
                requires
                    p == q + 1,
            ;
        }
    } else {
        assert(p * pow2((m - t) as nat) == 0) by (nonlinear_arith)
            requires
                p == 0,
        ;
    }
}

/// Among the coins in front of a level, the symbols' coins are no heavier
/// than the last of them.
proof fn lemma_prefix_pure(pure: Seq<nat>, d: nat, r: nat)
    requires
        ascending(pure),
        positive(pure),
        1 <= r <= level(pure, d).len(),
        pure_count(level(pure, d), r) >= 1,
    ensures
        pure_count(level(pure, d), r) <= pure.len(),
        pure[pure_count(level(pure, d), r) - 1] <= level(pure, d)[r - 1].weight,
{
    let coins = level(pure, d);
    if d == 0 {
        lemma_pure_count_all(coins, r);
    } else {
        let below = weights(level(pure, (d - 1) as nat));
        let pk = packages(below);
        lemma_level_ascending(pure, (d - 1) as nat);
        lemma_packages_ascending(below);
        lemma_merge_prefix(pure, pk, 0, 0, r);
        if coins[r - 1].package {
            lemma_merge_prefix(pure, pk, 0, 0, (r - 1) as nat);
        }
    }
}

/// Where no coin is a package, every coin counts.
proof fn lemma_pure_count_all(coins: Seq<Coin>, r: nat)
    requires
        r <= coins.len(),
        forall|k: int| 0 <= k < coins.len() ==> !(#[trigger] coins[k]).package,
    ensures
        pure_count(coins, r) == r,
    decreases r,
{
    if r > 0 {
        lemma_pure_count_all(coins, (r - 1) as nat);
    }
}

/// The packages in front of a level unfold to coins of no more symbols than
/// have coins of their own in front of the level.
proof fn lemma_fewer_below(pure: Seq<nat>, d: nat, r: nat)
    requires
        pure.len() >= 1,
        ascending(pure),
        positive(pure),
        d >= 1,
        r <= level(pure, d).len(),
    ensures
        ({
            let p = pure_count(level(pure, d), r);
            let next = (2 * (r - p)) as nat;
            &&& p <= r
            &&& next <= level(pure, (d - 1) as nat).len()
            &&& pure_count(level(pure, (d - 1) as nat), next) <= p
        }),
{
    let n = pure.len();
    let coins = level(pure, d);
    let lower = level(pure, (d - 1) as nat);
    let below = weights(lower);
    let pk = packages(below);
    lemma_level_ascending(pure, (d - 1) as nat);
    lemma_packages_ascending(below);
    lemma_merge_prefix(pure, pk, 0, 0, r);
    lemma_merge_len(pure, pk, 0, 0);
    let p = pure_count(coins, r);
    let q = r - p;
    let next = (2 * q) as nat;
    let found = pure_count(lower, next);
    if d == 1 {
        lemma_pure_count_all(lower, next);
    } else {
        let lowest = weights(level(pure, (d - 2) as nat));
        lemma_merge_counts(pure, packages(lowest), 0, 0, next);
    }
    if q >= 1 && p < n && found >= 1 {
        // the last package taken is lighter than the next symbol's coin
        assert(pk[q - 1] < pure[p as int]);
        assert(below[2 * q - 1] == lower[2 * q - 1].weight);
        assert(pk[q - 1] == below[2 * (q - 1)] + below[2 * (q - 1) + 1]);
        lemma_prefix_pure(pure, (d - 1) as nat, next);
        if found > p {
            assert(pure[p as int] <= pure[found - 1]);
        }
    }
    if q == 0 {
        assert(pure_count(lower, 0) == 0);
    }
}

/// Taking the first `r` coins of level `d`, for symbols of which the first
/// `cap` have codes of `t - 1` bits and the others shorter ones, with a sum
/// of `2^m + r 2^(m - t)`, leaves a sum of exactly `2^m`.
proof fn lemma_descend_all(
    pure: Seq<nat>,
    d: nat,
    r: nat,
    a: Seq<nat>,
    t: nat,
    m: nat,
    cap: nat,
)
    requires
        pure.len() >= 1,
        ascending(pure),
        positive(pure),
        a.len() == pure.len(),
        r <= level(pure, d).len(),
        t >= 1,
        t + d <= m,
        cap <= a.len(),
        pure_count(level(pure, d), r) <= cap,
        forall|j: int| 0 <= j < a.len() ==> a[j] <= t - 1,
        forall|j: int| 0 <= j < cap ==> a[j] == t - 1,
        full_sum(a, m) == pow2(m) + r * pow2((m - t) as nat),
    ensures
        full_sum(Seq::new(a.len(), |j: int| a[j] + coin_count(pure, d, r, j as nat)), m) == pow2(
            m,
        ),
    decreases d,
{
    let fin = Seq::new(a.len(), |j: int| a[j] + coin_count(pure, d, r, j as nat));
    lemma_level_len(pure, d);
    if d == 0 {
        lemma_pure_count_all(level(pure, 0), r);
        lemma_bump_frees_all(a, r, t, m);
        assert(fin =~= bumped(a, r));
    } else {
        lemma_fewer_below(pure, d, r);
        let p = pure_count(level(pure, d), r);
        let next = (2 * (r - p)) as nat;
        let b = bumped(a, p);
        lemma_bump_frees_all(a, p, t, m);
        lemma_pow2_unfold((m - t) as nat);
        let unit = pow2((m - t - 1) as nat);
        assert(r * pow2((m - t) as nat) - p * pow2((m - t) as nat) == next * unit)
            by (nonlinear_arith)
            requires
                pow2((m - t) as nat) == 2 * unit,
                next == 2 * (r - p),
                p <= r,
        ;
        lemma_descend_all(pure, (d - 1) as nat, next, b, t + 1, m, p);
        assert(fin =~= Seq::new(
            b.len(),
            |j: int| b[j] + coin_count(pure, (d - 1) as nat, next, j as nat),
        ));
    }
}

/// Where package-merge has levels to build, its codes leave no code unused:
/// with three or more symbols in use and a limit that allows a shorter limit
/// still, the Kraft sum of the lengths is exactly 1.
pub proof fn lemma_package_merge_complete(freqs: Seq<u32>, max_length: nat)
    requires
        freqs.len() <= usize::MAX,
        max_length >= 1,
        count_nonzero(freqs) >= 3,
        freqs.len() <= pow2((max_length - 1) as nat),
    ensures
        spec_package_merge(freqs, max_length) is Ok,
        kraft_sum(spec_package_merge(freqs, max_length)->Ok_0, max_length) == pow2(max_length),
{
    let size = freqs.len();
    let order = sorted_symbols(freqs, size);
    let pure = pure_weights(freqs, order);
    let n = pure.len();
    let limit = (max_length - 1) as nat;
    let top = top_level(pure, limit, 0);
    let goal = (2 * (n - 1)) as nat;
    let values = sorted_lengths(pure, max_length);
    lemma_count_nonzero_bound(freqs);
    lemma_pow2_unfold(max_length);
    lemma_sorted_symbols(freqs, size);
    assert(freqs.take(size as int) =~= freqs);
    lemma_sorted_symbols_ordered(freqs, size);
    assert(ascending(pure));
    assert(positive(pure));
    lemma_sorted_lengths_hold(pure, max_length);
    lemma_top_level_size(pure, limit, 0);
    lemma_level_len(pure, top);
    lemma_all_taken(pure, top);
    let zero = Seq::new(n, |j: int| 0nat);
    lemma_full_sum_zeros(n, max_length);
    assert(n * pow2(max_length) == pow2(max_length) + goal * pow2((max_length - 1) as nat))
        by (nonlinear_arith)
        requires
            pow2(max_length) == 2 * pow2((max_length - 1) as nat),
            goal == 2 * (n - 1),
            n >= 1,
    ;
    lemma_descend_all(pure, top, goal, zero, 1, max_length, n);
    assert(values =~= Seq::new(n, |j: int| zero[j] + coin_count(pure, top, goal, j as nat)));
    lemma_full_sum_is_kraft(values, max_length);
    lemma_scatter_kraft(order, values, size, n, max_length);
    assert(values.take(n as int) =~= values);
}

} // verus!
