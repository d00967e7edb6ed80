//! A growable set of small natural numbers, one bit per number.

use vstd::prelude::*;
use crate::bits::bit_at;

verus! {

/// A set of `usize` values stored as bits of 64-bit words.
#[derive(Debug)]
pub struct Bitset {
    data: Vec<u64>,
}

/// How many members of `s` lie in `from..to`.
pub open spec fn count_in(s: Set<nat>, from: nat, to: nat) -> nat
    decreases to,
{
    if to <= from {
        0
    } else {
        count_in(s, from, (to - 1) as nat) + (if s.contains((to - 1) as nat) {
            1nat
        } else {
            0nat
        })
    }
}

/// How many of the bits `lo..hi` of `x` are set.
pub open spec fn ones_in(x: u64, lo: nat, hi: nat) -> nat
    decreases hi,
{
    if hi <= lo {
        0
    } else {
        ones_in(x, lo, (hi - 1) as nat) + (if bit_at(x, (hi - 1) as nat) {
            1nat
        } else {
            0nat
        })
    }
}

/// The order in which `Bitset::iter` lists members: by 64-value group
/// ascending, and within a group from the largest member down.
pub open spec fn listed_before(a: usize, b: usize) -> bool {
    a / 64 < b / 64 || (a / 64 == b / 64 && a > b)
}

/// The number of set bits of a word, as `u64::count_ones` computes it: the
/// count of ones in the binary representation of `x`.
#[verifier::external_body]
fn count_ones_u64(x: u64) -> (r: u32)
    ensures
        r == ones_in(x, 0, 64),
{
    x.count_ones()
}

proof fn bv_set_bit(w: u64, b: u64, i: u64)
    by (bit_vector)
    requires
        b < 64,
        i < 64,
    ensures
        (((w | (1u64 << b)) >> i) & 1 == 1) == (((w >> i) & 1 == 1) || i == b),
        (((w & !(1u64 << b)) >> i) & 1 == 1) == (((w >> i) & 1 == 1) && i != b),
        ((w & (1u64 << b)) != 0) == ((w >> b) & 1 == 1),
{
}

proof fn bv_or_bit(a: u64, b: u64, i: u64)
    by (bit_vector)
    requires
        i < 64,
    ensures
        (((a | b) >> i) & 1 == 1) == (((a >> i) & 1 == 1) || ((b >> i) & 1 == 1)),
        ((0u64 >> i) & 1 == 1) == false,
{
}

proof fn bv_range_mask(w: u64, lo: u64, hi: u64, i: u64)
    by (bit_vector)
    requires
        lo < 64,
        hi < 64,
        i < 64,
    ensures
        (((w & (0xFFFF_FFFF_FFFF_FFFFu64 << lo)) >> i) & 1 == 1) == (((w >> i) & 1 == 1) && lo
            <= i),
        (((w & ((0xFFFF_FFFF_FFFF_FFFFu64 >> ((63 - hi) as u64)) >> 1)) >> i) & 1 == 1) == (((w
            >> i) & 1 == 1) && i < hi),
        (((w & (0xFFFF_FFFF_FFFF_FFFFu64 << lo) & ((0xFFFF_FFFF_FFFF_FFFFu64 >> ((63
            - hi) as u64)) >> 1)) >> i) & 1 == 1) == (((w >> i) & 1 == 1) && lo <= i && i < hi),
{
}

/// Counting over adjacent ranges adds up.
pub proof fn lemma_count_in_split(s: Set<nat>, a: nat, b: nat, c: nat)
    requires
        a <= b <= c,
    ensures
        count_in(s, a, c) == count_in(s, a, b) + count_in(s, b, c),
    decreases c,
{
    if c > b {
        lemma_count_in_split(s, a, b, (c - 1) as nat);
    }
}

/// Two sets that agree on a range have the same count there.
pub proof fn lemma_count_in_agree(s: Set<nat>, t: Set<nat>, a: nat, b: nat)
    requires
        forall|i: nat| a <= i < b ==> s.contains(i) == t.contains(i),
    ensures
        count_in(s, a, b) == count_in(t, a, b),
    decreases b,
{
    if b > a {
        lemma_count_in_agree(s, t, a, (b - 1) as nat);
    }
}

/// A set bounded by `n` is finite, and counting below `n` gives its size.
pub proof fn lemma_count_in_len(s: Set<nat>, n: nat)
    requires
        forall|i: nat| s.contains(i) ==> i < n,
    ensures
        s.finite(),
        s.len() == count_in(s, 0, n),
    decreases n,
{
    if n == 0 {
        assert(s =~= Set::<nat>::empty());
    } else {
        let last = (n - 1) as nat;
        let t = s.remove(last);
        assert forall|i: nat| t.contains(i) implies i < last by {
            assert(s.contains(i));
        }
        lemma_count_in_len(t, last);
        lemma_count_in_agree(s, t, 0, last);
        if s.contains(last) {
            assert(s =~= t.insert(last));
        } else {
            assert(s =~= t);
        }
    }
}

proof fn lemma_count_in_none(s: Set<nat>, a: nat, b: nat)
    requires
        forall|i: nat| a <= i < b ==> !s.contains(i),
    ensures
        count_in(s, a, b) == 0,
    decreases b,
{
    if b > a {
        lemma_count_in_none(s, a, (b - 1) as nat);
    }
}

proof fn lemma_ones_in_bound(x: u64, lo: nat, hi: nat)
    requires
        lo <= hi,
    ensures
        ones_in(x, lo, hi) <= hi - lo,
    decreases hi,
{
    if hi > lo {
        lemma_ones_in_bound(x, lo, (hi - 1) as nat);
    }
}

/// The set bits of a masked word are those of the word inside the mask's range.
proof fn lemma_masked_ones(x: u64, m: u64, lo: nat, hi: nat, n: nat)
    requires
        lo <= hi <= 64,
        n <= 64,
        forall|i: nat| i < 64 ==> bit_at(m, i) == (bit_at(x, i) && lo <= i < hi),
    ensures
        ones_in(m, 0, n) == ones_in(x, lo, if n < lo { lo } else if n > hi { hi } else { n }),
    decreases n,
{
    if n > 0 {
        lemma_masked_ones(x, m, lo, hi, (n - 1) as nat);
    }
}

impl View for Bitset {
    type V = Set<nat>;

    closed spec fn view(&self) -> Set<nat> {
        Set::new(
            |i: nat| i / 64 < self.data@.len() && bit_at(self.data@[(i / 64) as int], i % 64),
        )
    }
}

impl Bitset {
    #[verifier::type_invariant]
    spec fn well_formed(self) -> bool {
        self.data@.len() <= usize::MAX / 64 + 1
    }

    /// Counting the members in a word's range is counting bits of the word.
    proof fn lemma_word_count(self, w: nat, lo: nat, hi: nat)
        requires
            w < self.data@.len(),
            lo <= hi <= 64,
        ensures
            count_in(self@, 64 * w + lo, 64 * w + hi) == ones_in(self.data@[w as int], lo, hi),
        decreases hi,
    {
        if hi > lo {
            self.lemma_word_count(w, lo, (hi - 1) as nat);
            let i = (64 * w + hi - 1) as nat;
            assert(i / 64 == w && i % 64 == hi - 1);
        }
    }

    /// No member lies at or past the end of the words.
    proof fn lemma_bounded(self)
        ensures
            forall|i: nat| self@.contains(i) ==> i < 64 * self.data@.len(),
    {
    }

    /// An empty set with room for the values below `capacity`.
    pub fn with_capacity(capacity: usize) -> (r: Self)
        ensures
            r@ == Set::<nat>::empty(),
            r.capacity() == 64 * ((capacity + 63) / 64),
    {
        let len = capacity / 64 + (if capacity % 64 != 0 { 1usize } else { 0usize });
        let mut data: Vec<u64> = Vec::new();
        let mut k: usize = 0;
        while k < len
            invariant
                k <= len,
                data@.len() == k,
                forall|j: int| 0 <= j < k ==> data@[j] == 0,
            decreases len - k,
        {
            data.push(0);
            k += 1;
        }
        let r = Bitset { data };
        proof {
            assert forall|i: nat| !r@.contains(i) by {
                if i / 64 < r.data@.len() {
                    bv_or_bit(0, 0, (i % 64) as u64);
                }
            }
            assert(r@ =~= Set::<nat>::empty());
        }
        r
    }

    /// How many values the storage has room for: the words that it holds,
    /// times 64. The storage grows only when a value at or past its end is
    /// added, and never shrinks.
    pub closed spec fn capacity(self) -> nat {
        64 * self.data@.len()
    }

    /// Every member is below the capacity.
    pub proof fn lemma_below_capacity(self)
        ensures
            forall|i: nat| self@.contains(i) ==> i < self.capacity(),
    {
    }

    /// Whether `value` is a member.
    pub fn contains(&self, value: &usize) -> (r: bool)
        ensures
            r == self@.contains(*value as nat),
    {
        let word_idx = *value / 64;
        let bit_idx = *value % 64;
        if word_idx >= self.data.len() {
            false
        } else {
            proof {
                bv_set_bit(self.data@[word_idx as int], bit_idx as u64, 0);
            }
            (self.data[word_idx] & (1u64 << bit_idx)) != 0
        }
    }

    /// Adds `value`, growing the storage when it lies past the end.
    pub fn insert(&mut self, value: usize)
        ensures
            final(self)@ == old(self)@.insert(value as nat),
            final(self).capacity() == (if value < old(self).capacity() {
                old(self).capacity()
            } else {
                (64 * (value / 64 + 1)) as nat
            }),
    {
        proof {
            use_type_invariant(&*self);
        }
        let word_idx = value / 64;
        let bit_idx = value % 64;
        let mut data: Vec<u64> = Vec::new();
        core::mem::swap(&mut data, &mut self.data);
        while data.len() <= word_idx
            invariant
                data@.len() <= usize::MAX / 64 + 1,
                word_idx + 1 <= usize::MAX / 64 + 1,
                data@.len() >= old(self).data@.len(),
                data@.len() == old(self).data@.len() || data@.len() <= word_idx + 1,
                forall|j: int| 0 <= j < old(self).data@.len() ==> data@[j] == old(self).data@[j],
                forall|j: int| old(self).data@.len() <= j < data@.len() ==> data@[j] == 0,
            decreases word_idx + 1 - data@.len(),
        {
            data.push(0);
        }
        let ghost before = data@;
        let word = data[word_idx];
        data[word_idx] = word | (1u64 << bit_idx);
        self.data = data;
        proof {
            assert forall|i: nat| final(self)@.contains(i) == old(self)@.insert(
                value as nat,
            ).contains(i) by {
                let w = i / 64;
                let b = i % 64;
                if w < before.len() {
                    bv_or_bit(0, 0, b as u64);
                    if w == word_idx {
                        bv_set_bit(word, bit_idx as u64, b as u64);
                    }
                }
            }
            assert(final(self)@ =~= old(self)@.insert(value as nat));
        }
    }

    /// Adds `value`; another name for `insert`.
    pub fn set(&mut self, value: usize)
        ensures
            final(self)@ == old(self)@.insert(value as nat),
            final(self).capacity() == (if value < old(self).capacity() {
                old(self).capacity()
            } else {
                (64 * (value / 64 + 1)) as nat
            }),
    {
        self.insert(value)
    }

    /// Takes `value` out, if it is a member.
    pub fn remove(&mut self, value: usize)
        ensures
            final(self)@ == old(self)@.remove(value as nat),
            final(self).capacity() == old(self).capacity(),
    {
        proof {
            use_type_invariant(&*self);
        }
        let word_idx = value / 64;
        let bit_idx = value % 64;
        if word_idx >= self.data.len() {
            proof {
                assert(self@ =~= self@.remove(value as nat));
            }
            return ;
        }
        let mut data: Vec<u64> = Vec::new();
        core::mem::swap(&mut data, &mut self.data);
        let word = data[word_idx];
        data[word_idx] = word & !(1u64 << bit_idx);
        self.data = data;
        proof {
            assert forall|i: nat| final(self)@.contains(i) == old(self)@.remove(
                value as nat,
            ).contains(i) by {
                let w = i / 64;
                let b = i % 64;
                if w == word_idx {
                    bv_set_bit(word, bit_idx as u64, b as u64);
                }
            }
            assert(final(self)@ =~= old(self)@.remove(value as nat));
        }
    }

    /// Takes `value` out; another name for `remove`.
    pub fn clear(&mut self, value: usize)
        ensures
            final(self)@ == old(self)@.remove(value as nat),
            final(self).capacity() == old(self).capacity(),
    {
        self.remove(value)
    }

    /// Adds every member of `rhs`.
    pub fn extend(&mut self, rhs: &Bitset)
        ensures
            final(self)@ == old(self)@.union(rhs@),
            final(self).capacity() == (if old(self).capacity() >= rhs.capacity() {
                old(self).capacity()
            } else {
                rhs.capacity()
            }),
    {
        proof {
            use_type_invariant(rhs);
            use_type_invariant(&*self);
        }
        let n = rhs.data.len();
        let mut data: Vec<u64> = Vec::new();
        core::mem::swap(&mut data, &mut self.data);
        while data.len() < n
            invariant
                n == rhs.data@.len(),
                n <= usize::MAX / 64 + 1,
                data@.len() <= usize::MAX / 64 + 1,
                data@.len() >= old(self).data@.len(),
                data@.len() == old(self).data@.len() || data@.len() <= n,
                forall|j: int| 0 <= j < old(self).data@.len() ==> data@[j] == old(self).data@[j],
                forall|j: int| old(self).data@.len() <= j < data@.len() ==> data@[j] == 0,
            decreases n - data@.len(),
        {
            data.push(0);
        }
        let ghost grown = data@;
        let mut idx: usize = 0;
        while idx < n
            invariant
                idx <= n == rhs.data@.len(),
                data@.len() == grown.len(),
                n <= grown.len() <= usize::MAX / 64 + 1,
                forall|j: int| 0 <= j < idx ==> data@[j] == grown[j] | rhs.data@[j],
                forall|j: int| idx <= j < grown.len() ==> data@[j] == grown[j],
            decreases n - idx,
        {
            let word = data[idx];
            data[idx] = word | rhs.data[idx];
            idx += 1;
        }
        self.data = data;
        proof {
            assert forall|i: nat| final(self)@.contains(i) == old(self)@.union(rhs@).contains(
                i,
            ) by {
                let w = (i / 64) as int;
                let b = i % 64;
                if w < grown.len() {
                    bv_or_bit(0, 0, b as u64);
                    assert(old(self)@.contains(i) == bit_at(grown[w], b));
                    if w < n {
                        bv_or_bit(grown[w], rhs.data@[w], b as u64);
                        assert(final(self).data@[w] == grown[w] | rhs.data@[w]);
                    } else {
                        assert(final(self).data@[w] == grown[w]);
                    }
                }
            }
            assert(final(self)@ =~= old(self)@.union(rhs@));
        }
    }

    /// Lists the members, each once: groups of 64 values in ascending order,
    /// and the members of a group from the largest down.
    pub fn iter(&self) -> (r: Vec<usize>)
        ensures
            forall|k: int| 0 <= k < r@.len() ==> self@.contains(#[trigger] r@[k] as nat),
            forall|v: nat| self@.contains(v) ==> exists|k: int| 0 <= k < r@.len() && r@[k] == v,
            forall|j: int, k: int| 0 <= j < k < r@.len() ==> listed_before(r@[j], r@[k]),
    {
        proof {
            use_type_invariant(self);
        }
        let mut out: Vec<usize> = Vec::new();
        let n = self.data.len();
        let mut w: usize = 0;
        while w < n
            invariant
                w <= n == self.data@.len(),
                n <= usize::MAX / 64 + 1,
                forall|k: int|
                    0 <= k < out@.len() ==> self@.contains(#[trigger] out@[k] as nat) && out@[k]
                        / 64 < w,
                forall|v: nat|
                    self@.contains(v) && v / 64 < w ==> exists|k: int|
                        0 <= k < out@.len() && out@[k] == v,
                forall|j: int, k: int| 0 <= j < k < out@.len() ==> listed_before(out@[j], out@[k]),
            decreases n - w,
        {
            let word = self.data[w];
            let mut b: usize = 64;
            while b > 0
                invariant
                    b <= 64,
                    w < n == self.data@.len(),
                    n <= usize::MAX / 64 + 1,
                    word == self.data@[w as int],
                    forall|k: int|
                        0 <= k < out@.len() ==> self@.contains(#[trigger] out@[k] as nat) && (
                        out@[k] / 64 < w || (out@[k] / 64 == w && out@[k] % 64 >= b)),
                    forall|v: nat|
                        self@.contains(v) && (v / 64 < w || (v / 64 == w && v % 64 >= b))
                            ==> exists|k: int| 0 <= k < out@.len() && out@[k] == v,
                    forall|j: int, k: int|
                        0 <= j < k < out@.len() ==> listed_before(out@[j], out@[k]),
                decreases b,
            {
                b -= 1;
                proof {
                    bv_set_bit(word, b as u64, 0);
                }
                if (word & (1u64 << b)) != 0 {
                    let value = w * 64 + b;
                    let ghost prev = out@;
                    out.push(value);
                    proof {
                        assert(value / 64 == w && value % 64 == b);
                        assert forall|v: nat|
                            self@.contains(v) && (v / 64 < w || (v / 64 == w && v % 64
                                >= b)) implies exists|k: int|
                            0 <= k < out@.len() && out@[k] == v by {
                            if v == value {
                                assert(out@[prev.len() as int] == v);
                            } else {
                                let k = choose|k: int| 0 <= k < prev.len() && prev[k] == v;
                                assert(out@[k] == v);
                            }
                        }
                    }
                } else {
                    proof {
                        let value = (w * 64 + b) as nat;
                        assert(value / 64 == w && value % 64 == b);
                        assert(!self@.contains(value));
                    }
                }
            }
            w += 1;
        }
        out
    }

    /// The number of members, or `usize::MAX` if there are more than that.
    pub fn count_ones(&self) -> (r: usize)
        ensures
            self@.finite(),
            r == if self@.len() <= usize::MAX { self@.len() } else { usize::MAX as nat },
    {
        proof {
            use_type_invariant(self);
            self.lemma_bounded();
            lemma_count_in_len(self@, 64 * self.data@.len());
        }
        let n = self.data.len();
        let mut count: usize = 0;
        let mut w: usize = 0;
        while w < n
            invariant
                w <= n == self.data@.len(),
                count == if count_in(self@, 0, 64 * w as nat) <= usize::MAX {
                    count_in(self@, 0, 64 * w as nat)
                } else {
                    usize::MAX as nat
                },
            decreases n - w,
        {
            let ones = count_ones_u64(self.data[w]);
            proof {
                self.lemma_word_count(w as nat, 0, 64);
                lemma_count_in_split(self@, 0, 64 * w as nat, 64 * (w + 1) as nat);
                lemma_ones_in_bound(self.data@[w as int], 0, 64);
            }
            count = count.saturating_add(ones as usize);
            w += 1;
        }
        count
    }

    /// The number of members in `from..to`.
    pub fn count_ones_sliced(&self, from: usize, to: usize) -> (r: usize)
        requires
            from <= to,
        ensures
            r == count_in(self@, from as nat, to as nat),
    {
        proof {
            use_type_invariant(self);
            self.lemma_bounded();
        }
        let n = self.data.len();
        let word_from = from / 64;
        let word_to = to / 64;
        let bit_from = from % 64;
        let bit_to = to % 64;
        let all_ones: u64 = 0xFFFF_FFFF_FFFF_FFFF;
        let first_mask = all_ones << bit_from;
        // The shift would be by 64 when `bit_to` is 0, so it is made in two steps.
        let last_mask = (all_ones >> (63 - bit_to)) >> 1;
        if word_from >= n {
            proof {
                lemma_count_in_none(self@, from as nat, to as nat);
            }
            return 0;
        }
        let first = self.data[word_from];
        if word_to > word_from {
            let head = first & first_mask;
            let mut count = count_ones_u64(head) as usize;
            proof {
                assert forall|i: nat| i < 64 implies bit_at(head, i) == (bit_at(first, i)
                    && bit_from <= i < 64) by {
                    bv_range_mask(first, bit_from as u64, 0, i as u64);
                }
                lemma_masked_ones(first, head, bit_from as nat, 64, 64);
                self.lemma_word_count(word_from as nat, bit_from as nat, 64);
                lemma_ones_in_bound(first, bit_from as nat, 64);
            }
            let end = if word_to < n { word_to } else { n };
            let mut w = word_from + 1;
            while w < end
                invariant
                    word_from < w <= end <= n == self.data@.len(),
                    end <= word_to,
                    n <= usize::MAX / 64 + 1,
                    word_to == to / 64,
                    from <= 64 * w,
                    count == count_in(self@, from as nat, 64 * w as nat),
                    count <= 64 * w - from,
                decreases end - w,
            {
                let ones = count_ones_u64(self.data[w]);
                proof {
                    self.lemma_word_count(w as nat, 0, 64);
                    lemma_count_in_split(self@, from as nat, 64 * w as nat, 64 * (w + 1) as nat);
                    lemma_ones_in_bound(self.data@[w as int], 0, 64);
                }
                count = count + ones as usize;
                w += 1;
            }
            if word_to < n {
                let last = self.data[word_to];
                let tail = last & last_mask;
                let ones = count_ones_u64(tail);
                proof {
                    assert forall|i: nat| i < 64 implies bit_at(tail, i) == (bit_at(last, i) && 0
                        <= i < bit_to) by {
                        bv_range_mask(last, 0, bit_to as u64, i as u64);
                    }
                    lemma_masked_ones(last, tail, 0, bit_to as nat, 64);
                    self.lemma_word_count(word_to as nat, 0, bit_to as nat);
                    lemma_ones_in_bound(last, 0, bit_to as nat);
                    lemma_count_in_split(self@, from as nat, 64 * word_to as nat, to as nat);
                }
                count = count + ones as usize;
            } else {
                proof {
                    lemma_count_in_none(self@, 64 * n as nat, to as nat);
                    lemma_count_in_split(self@, from as nat, 64 * n as nat, to as nat);
                }
            }
            count
        } else {
            let mid = first & first_mask & last_mask;
            proof {
                assert forall|i: nat| i < 64 implies bit_at(mid, i) == (bit_at(first, i)
                    && bit_from <= i < bit_to) by {
                    bv_range_mask(first, bit_from as u64, bit_to as u64, i as u64);
                }
                lemma_masked_ones(first, mid, bit_from as nat, bit_to as nat, 64);
                self.lemma_word_count(word_from as nat, bit_from as nat, bit_to as nat);
                lemma_ones_in_bound(first, bit_from as nat, bit_to as nat);
            }
            count_ones_u64(mid) as usize
        }
    }
}

} // verus!
