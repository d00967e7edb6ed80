//! The Kraft sum of a vector of code lengths.
//!
//! A code of length `l` takes up `2^-l` of the code space. To stay within the
//! integers the sum is scaled by `2^m`, for a bound `m` on the lengths.

use vstd::prelude::*;
use vstd::arithmetic::power2::pow2;

verus! {

/// The share of the code space, scaled by `2^m`, that a code of the given
/// length takes; a length of 0 stands for a symbol without a code.
pub open spec fn kraft_term(length: nat, m: nat) -> nat {
    if 0 < length <= m {
        pow2((m - length) as nat)
    } else {
        0
    }
}

/// The Kraft sum of `lengths`, scaled by `2^m`.
pub open spec fn kraft_sum(lengths: Seq<nat>, m: nat) -> nat
    decreases lengths.len(),
{
    if lengths.len() == 0 {
        0
    } else {
        kraft_sum(lengths.drop_last(), m) + kraft_term(lengths.last(), m)
    }
}

/// Whether the lengths are at most `m` and can be those of a prefix code.
pub open spec fn kraft_holds(lengths: Seq<nat>, m: nat) -> bool {
    &&& forall|i: int| 0 <= i < lengths.len() ==> lengths[i] <= m
    &&& kraft_sum(lengths, m) <= pow2(m)
}

/// Changing one length changes the sum by the difference of the two terms.
pub proof fn lemma_kraft_update(lengths: Seq<nat>, m: nat, i: int, v: nat)
    requires
        0 <= i < lengths.len(),
    ensures
        kraft_sum(lengths.update(i, v), m) + kraft_term(lengths[i], m) == kraft_sum(lengths, m)
            + kraft_term(v, m),
    decreases lengths.len(),
{
    let changed = lengths.update(i, v);
    if i == lengths.len() - 1 {
        assert(changed.drop_last() =~= lengths.drop_last());
    } else {
        lemma_kraft_update(lengths.drop_last(), m, i, v);
        assert(changed.drop_last() =~= lengths.drop_last().update(i, v));
    }
}

/// Lengths that are all 0 take up nothing.
pub proof fn lemma_kraft_zero(lengths: Seq<nat>, m: nat)
    requires
        forall|i: int| 0 <= i < lengths.len() ==> lengths[i] == 0,
    ensures
        kraft_sum(lengths, m) == 0,
    decreases lengths.len(),
{
    if lengths.len() > 0 {
        lemma_kraft_zero(lengths.drop_last(), m);
    }
}

} // verus!
