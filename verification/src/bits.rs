//! Bit sequences: how words and bytes are laid out as bits on the wire.
//!
//! A field is sent least significant bit first, and the bits of a byte stream
//! are those of its bytes in order, each byte least significant bit first.

use vstd::prelude::*;
use vstd::arithmetic::power2::*;
use vstd::bits::*;

verus! {

/// Whether bit `i` of `x` is set; bits past the word are clear.
pub open spec fn bit_at(x: u64, i: nat) -> bool {
    i < 64 && (x >> (i as u64)) & 1 == 1
}

/// The low `n` bits of `x`, least significant first.
pub open spec fn bits_of(x: u64, n: nat) -> Seq<bool> {
    Seq::new(n, |i: int| bit_at(x, i as nat))
}

/// The bits of a byte sequence in wire order.
pub open spec fn bytes_bits(bytes: Seq<u8>) -> Seq<bool> {
    Seq::new(8 * bytes.len(), |i: int| bit_at(bytes[i / 8] as u64, (i % 8) as nat))
}

/// `n` clear bits.
pub open spec fn zeros(n: nat) -> Seq<bool> {
    Seq::new(n, |i: int| false)
}

/// The number that a bit sequence spells, least significant bit first.
pub open spec fn value_of(bits: Seq<bool>) -> nat
    decreases bits.len(),
{
    if bits.len() == 0 {
        0
    } else {
        (if bits[0] { 1nat } else { 0nat }) + 2 * value_of(bits.skip(1))
    }
}

/// The first `count` bytes of `word` in little-endian order.
pub open spec fn le_bytes(word: u64, count: nat) -> Seq<u8> {
    Seq::new(count, |k: int| ((word >> ((8 * k) as u64)) & 0xFF) as u8)
}

/// Whether `x` has no bit set at position `n` or above.
pub open spec fn fits(x: u64, n: nat) -> bool {
    n >= 64 || x >> (n as u64) == 0
}

pub proof fn lemma_fits_pow2(x: u64, n: nat)
    ensures
        fits(x, n) <==> (n >= 64 || (x as nat) < pow2(n)),
{
    if n < 64 {
        lemma_u64_shr_is_div(x, n as u64);
        lemma_pow2_pos(n);
        let p = pow2(n) as int;
        assert((x as int) / p == 0 <==> (x as int) < p) by (nonlinear_arith)
            requires
                p > 0,
                x >= 0,
        ;
    }
}

proof fn bv_low_bit(x: u64)
    by (bit_vector)
    ensures
        ((x >> 0) & 1 == 1) == (x % 2 == 1),
        x >> 1 == x / 2,
{
}

proof fn bv_shr_bit(x: u64, s: u64, i: u64)
    by (bit_vector)
    requires
        s < 64,
        i < 64,
    ensures
        ((x >> s) >> i) & 1 == (if i + s < 64 { (x >> ((i + s) as u64)) & 1 } else { 0 }),
{
}

proof fn bv_or_shl_bit(buf: u64, data: u64, len: u64, i: u64)
    by (bit_vector)
    requires
        len < 64,
        i < 64,
        buf >> len == 0,
    ensures
        ((buf | (data << len)) >> i) & 1 == (if i < len {
            (buf >> i) & 1
        } else {
            (data >> ((i - len) as u64)) & 1
        }),
{
}

proof fn bv_shr_fits(data: u64, s: u64, n: u64)
    by (bit_vector)
    requires
        s < 64,
        s <= n,
        n < 64 ==> data >> n == 0,
    ensures
        n - s < 64 ==> (data >> s) >> ((n - s) as u64) == 0,
{
}

proof fn bv_mask_bit(x: u64, n: u64, i: u64)
    by (bit_vector)
    requires
        n < 64,
        i < 64,
    ensures
        ((x & (((1u64 << n) - 1) as u64)) >> i) & 1 == (if i < n { (x >> i) & 1 } else { 0 }),
        (x & (((1u64 << n) - 1) as u64)) >> n == 0,
{
}

proof fn bv_high_clear(x: u64, n: u64, i: u64)
    by (bit_vector)
    requires
        n <= i,
        i < 64,
        x >> n == 0,
    ensures
        (x >> i) & 1 == 0,
{
}

proof fn bv_byte_bit(word: u64, k: u64, j: u64)
    by (bit_vector)
    requires
        k < 8,
        j < 8,
    ensures
        (word >> ((8 * k) as u64)) & 0xFF <= 0xFF,
        (((word >> ((8 * k) as u64)) & 0xFF) >> j) & 1 == (word >> ((8 * k + j) as u64)) & 1,
{
}

proof fn bv_or_byte_bit(chunk: u64, b: u64, k: u64, i: u64)
    by (bit_vector)
    requires
        k < 8,
        i < 64,
        b <= 0xFF,
        chunk >> ((8 * k) as u64) == 0,
    ensures
        ((chunk | (b << ((8 * k) as u64))) >> i) & 1 == (if i < 8 * k {
            (chunk >> i) & 1
        } else if i < 8 * k + 8 {
            (b >> ((i - 8 * k) as u64)) & 1
        } else {
            0
        }),
        k < 7 ==> (chunk | (b << ((8 * k) as u64))) >> ((8 * k + 8) as u64) == 0,
{
}

proof fn bv_zero(i: u64)
    by (bit_vector)
    requires
        i < 64,
    ensures
        (0u64 >> i) & 1 == 0,
        0u64 >> i == 0,
{
}

/// Bit `i` of `x >> s` is bit `i + s` of `x`.
pub proof fn lemma_shr_bit(x: u64, s: nat, i: nat)
    requires
        s < 64,
    ensures
        bit_at(x >> (s as u64), i) == bit_at(x, i + s),
{
    if i < 64 {
        bv_shr_bit(x, s as u64, i as u64);
    }
}

/// The bits of `buf | (data << len)` are those of `buf` below `len` and those of
/// `data` from there on.
pub proof fn lemma_or_shl_bits(buf: u64, data: u64, len: nat, n: nat)
    requires
        len < 64,
        len + n <= 64,
        fits(buf, len),
    ensures
        bits_of(buf | (data << (len as u64)), len + n) == bits_of(buf, len) + bits_of(data, n),
{
    let w = buf | (data << (len as u64));
    assert forall|i: int| 0 <= i < len + n implies bits_of(w, len + n)[i] == (bits_of(buf, len)
        + bits_of(data, n))[i] by {
        bv_or_shl_bit(buf, data, len as u64, i as u64);
    }
    assert(bits_of(w, len + n) =~= bits_of(buf, len) + bits_of(data, n));
}

/// A word that fits in `n` bits has only clear bits from `n` on.
pub proof fn lemma_fits_bits(x: u64, n: nat, m: nat)
    requires
        fits(x, n),
        n <= m,
    ensures
        bits_of(x, m) == bits_of(x, n) + zeros((m - n) as nat),
{
    assert forall|i: int| 0 <= i < m implies bits_of(x, m)[i] == (bits_of(x, n) + zeros(
        (m - n) as nat,
    ))[i] by {
        if i >= n && i < 64 {
            bv_high_clear(x, n as u64, i as u64);
        }
    }
    assert(bits_of(x, m) =~= bits_of(x, n) + zeros((m - n) as nat));
}

/// Taking the low `n` bits of a word by a mask.
pub proof fn lemma_mask_bits(x: u64, n: nat, m: nat)
    requires
        n < 64,
        n <= m,
    ensures
        bits_of(x & (((1u64 << (n as u64)) - 1) as u64), n) == bits_of(x, m).take(n as int),
        fits(x & (((1u64 << (n as u64)) - 1) as u64), n),
{
    let v = x & (((1u64 << (n as u64)) - 1) as u64);
    bv_mask_bit(x, n as u64, 0);
    assert forall|i: int| 0 <= i < n implies bits_of(v, n)[i] == bits_of(x, m).take(n as int)[i] by {
        bv_mask_bit(x, n as u64, i as u64);
    }
    assert(bits_of(v, n) =~= bits_of(x, m).take(n as int));
}

/// Dropping the low `s` bits of a word by a shift.
pub proof fn lemma_shr_bits(x: u64, s: nat, n: nat)
    requires
        s < 64,
        s <= n <= 64,
        fits(x, n),
    ensures
        bits_of(x >> (s as u64), (n - s) as nat) == bits_of(x, n).skip(s as int),
        fits(x >> (s as u64), (n - s) as nat),
{
    let v = x >> (s as u64);
    bv_shr_fits(x, s as u64, n as u64);
    assert forall|i: int| 0 <= i < n - s implies bits_of(v, (n - s) as nat)[i] == bits_of(
        x,
        n,
    ).skip(s as int)[i] by {
        lemma_shr_bit(x, s, i as nat);
    }
    assert(bits_of(v, (n - s) as nat) =~= bits_of(x, n).skip(s as int));
}

/// The bits of the first `count` little-endian bytes of a word are its low
/// `8 * count` bits.
pub proof fn lemma_le_bytes_bits(word: u64, count: nat)
    requires
        count <= 8,
    ensures
        bytes_bits(le_bytes(word, count)) == bits_of(word, 8 * count),
{
    let bytes = le_bytes(word, count);
    assert forall|i: int| 0 <= i < 8 * count implies bytes_bits(bytes)[i] == bits_of(
        word,
        8 * count,
    )[i] by {
        let k = i / 8;
        let j = i % 8;
        bv_byte_bit(word, k as u64, j as u64);
        let b = (word >> ((8 * k) as u64)) & 0xFF;
        assert(bytes[k] == b as u8);
        assert((b as u8) as u64 == b);
        assert(8 * k + j == i);
    }
    assert(bytes_bits(bytes) =~= bits_of(word, 8 * count));
}

/// The bits of a concatenation are the concatenation of the bits.
pub proof fn lemma_bytes_bits_concat(a: Seq<u8>, b: Seq<u8>)
    ensures
        bytes_bits(a + b) == bytes_bits(a) + bytes_bits(b),
{
    assert forall|i: int| 0 <= i < 8 * (a.len() + b.len()) implies bytes_bits(a + b)[i] == (
    bytes_bits(a) + bytes_bits(b))[i] by {
        if i >= 8 * a.len() {
            let j = i - 8 * a.len();
            assert(i / 8 == j / 8 + a.len());
            assert(i % 8 == j % 8);
        }
    }
    assert(bytes_bits(a + b) =~= bytes_bits(a) + bytes_bits(b));
}

/// Skipping whole bytes skips their bits.
pub proof fn lemma_bytes_bits_skip(a: Seq<u8>, k: nat)
    requires
        k <= a.len(),
    ensures
        bytes_bits(a.skip(k as int)) == bytes_bits(a).skip(8 * k as int),
        bytes_bits(a.take(k as int)) == bytes_bits(a).take(8 * k as int),
{
    assert(a =~= a.take(k as int) + a.skip(k as int));
    lemma_bytes_bits_concat(a.take(k as int), a.skip(k as int));
    let x = bytes_bits(a.take(k as int));
    let y = bytes_bits(a.skip(k as int));
    assert((x + y).skip(8 * k as int) =~= y);
    assert((x + y).take(8 * k as int) =~= x);
}

/// What a bit sequence spells is below two to its length.
pub proof fn lemma_value_of_bound(bits: Seq<bool>)
    ensures
        value_of(bits) < pow2(bits.len()),
    decreases bits.len(),
{
    if bits.len() == 0 {
        lemma2_to64();
    } else {
        lemma_value_of_bound(bits.skip(1));
        lemma_pow2_unfold(bits.len());
    }
}

/// A word below two to the `n` is what its low `n` bits spell.
pub proof fn lemma_value_of_bits(x: u64, n: nat)
    requires
        n <= 64,
        n < 64 ==> (x as nat) < pow2(n),
    ensures
        value_of(bits_of(x, n)) == x,
    decreases n,
{
    let s = bits_of(x, n);
    if n == 0 {
        lemma2_to64();
    } else {
        let y: u64 = x >> 1;
        bv_low_bit(x);
        lemma_pow2_unfold(n);
        assert(s.skip(1) =~= bits_of(y, (n - 1) as nat)) by {
            assert forall|i: int| 0 <= i < n - 1 implies s.skip(1)[i] == bits_of(
                y,
                (n - 1) as nat,
            )[i] by {
                lemma_shr_bit(x, 1, i as nat);
            }
        }
        if n < 64 {
            assert((y as nat) < pow2((n - 1) as nat));
        } else {
            lemma2_to64();
            lemma2_to64_rest();
        }
        lemma_value_of_bits(y, (n - 1) as nat);
        assert(s[0] == (x % 2 == 1));
    }
}

/// The bits of a sequence spelled as a word are the sequence again.
pub proof fn lemma_bits_of_value(bits: Seq<bool>, x: u64)
    requires
        bits.len() <= 64,
        x == value_of(bits),
    ensures
        bits_of(x, bits.len()) == bits,
    decreases bits.len(),
{
    let n = bits.len();
    if n > 0 {
        let rest = bits.skip(1);
        lemma_value_of_bound(rest);
        lemma_pow2_unfold(n);
        if n < 64 {
            lemma2_to64();
            lemma2_to64_rest();
            lemma_pow2_strictly_increases((n - 1) as nat, 63);
        } else {
            lemma2_to64();
            lemma2_to64_rest();
        }
        let y: u64 = x >> 1;
        bv_low_bit(x);
        assert(y == value_of(rest));
        lemma_bits_of_value(rest, y);
        assert forall|i: int| 0 <= i < n implies bits_of(x, n)[i] == bits[i] by {
            if i > 0 {
                lemma_shr_bit(x, 1, (i - 1) as nat);
                assert(bits_of(y, rest.len())[i - 1] == rest[i - 1]);
            }
        }
    }
    assert(bits_of(x, n) =~= bits);
}

/// Adding one byte above the bytes already gathered in a word.
pub proof fn lemma_or_byte_bits(chunk: u64, b: u8, k: nat, bytes: Seq<u8>)
    requires
        k < 8,
        bytes.len() == k,
        fits(chunk, 8 * k),
        bits_of(chunk, 8 * k) == bytes_bits(bytes),
    ensures
        fits(chunk | ((b as u64) << ((8 * k) as u64)), 8 * k + 8),
        bits_of(chunk | ((b as u64) << ((8 * k) as u64)), 8 * k + 8) == bytes_bits(bytes.push(b)),
{
    let w = chunk | ((b as u64) << ((8 * k) as u64));
    bv_or_byte_bit(chunk, b as u64, k as u64, 0);
    assert(bytes.push(b) =~= bytes + seq![b]);
    lemma_bytes_bits_concat(bytes, seq![b]);
    assert forall|i: int| 0 <= i < 8 * k + 8 implies bits_of(w, 8 * k + 8)[i] == (bytes_bits(bytes)
        + bytes_bits(seq![b]))[i] by {
        bv_or_byte_bit(chunk, b as u64, k as u64, i as u64);
        if i < 8 * k {
            assert(bits_of(chunk, 8 * k)[i] == bytes_bits(bytes)[i]);
        } else {
            let j = i - 8 * k;
            assert(j / 8 == 0 && j % 8 == j);
        }
    }
    assert(bits_of(w, 8 * k + 8) =~= bytes_bits(bytes) + bytes_bits(seq![b]));
}

/// A zero word has no bits set.
pub proof fn lemma_zero_bits(n: nat)
    ensures
        fits(0u64, n),
        bits_of(0u64, n) == zeros(n),
{
    if n < 64 {
        bv_zero(n as u64);
    }
    assert forall|i: int| 0 <= i < n implies bits_of(0u64, n)[i] == zeros(n)[i] by {
        if i < 64 {
            bv_zero(i as u64);
        }
    }
    assert(bits_of(0u64, n) =~= zeros(n));
}

proof fn bv_single_bit(v: u64)
    by (bit_vector)
    requires
        v < 2,
    ensures
        ((v >> 0) & 1 == 1) == (v != 0),
{
}

/// A one-bit field is set exactly when its value is not 0.
pub proof fn lemma_single_bit(v: u64)
    requires
        v < 2,
    ensures
        bit_at(v, 0) == (v != 0),
{
    bv_single_bit(v);
}

/// Byte `k` of `word`, counted from the least significant.
pub fn byte_of(word: u64, k: usize) -> (b: u8)
    requires
        k < 8,
    ensures
        b == le_bytes(word, 8)[k as int],
{
    proof {
        bv_byte_bit(word, k as u64, 0);
    }
    ((word >> (8 * k as u64)) & 0xFF) as u8
}

} // verus!
