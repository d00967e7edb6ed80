//! Bit-level writer and reader over byte buffers.
//!
//! Both sides keep a 64-bit accumulator holding fewer than 64 bits. Fields are
//! packed least significant bit first, and whole words move between the
//! accumulator and the bytes in little-endian order.

use vstd::prelude::*;
use vstd::arithmetic::power2::{pow2, lemma_pow2_pos, lemma2_to64};
use vstd::bits::lemma_u64_shl_is_mul;
use crate::bits::{
    bits_of, bytes_bits, zeros, value_of, le_bytes, fits, byte_of, lemma_fits_pow2,
    lemma_or_shl_bits, lemma_fits_bits, lemma_mask_bits, lemma_shr_bits, lemma_le_bytes_bits,
    lemma_bytes_bits_concat, lemma_bytes_bits_skip, lemma_value_of_bits, lemma_or_byte_bits,
    lemma_zero_bits,
};

verus! {

/// Up to 63 pending bits, held in the low end of a word.
#[derive(Clone, Copy)]
struct Accumulator {
    buffer: u64,
    length: usize,
}

impl Accumulator {
    #[verifier::type_invariant]
    spec fn well_formed(self) -> bool {
        self.length < 64 && fits(self.buffer, self.length as nat)
    }

    spec fn bits(self) -> Seq<bool> {
        bits_of(self.buffer, self.length as nat)
    }

    fn empty() -> (a: Self)
        ensures
            a.length == 0,
            a.bits() == Seq::<bool>::empty(),
    {
        proof {
            lemma_zero_bits(0);
            assert(bits_of(0u64, 0) =~= Seq::<bool>::empty());
        }
        Accumulator { buffer: 0, length: 0 }
    }
}

/// The source ran out before the requested bits were read.
#[derive(Clone, Copy, Debug, PartialEq, Eq)]
pub struct UnexpectedEof;

/// Packs bit fields into a growing byte buffer.
pub struct BitWriter {
    sink: Vec<u8>,
    acc: Accumulator,
}

/// Unpacks bit fields from a byte slice.
pub struct BitReader<'a> {
    source: &'a [u8],
    position: usize,
    acc: Accumulator,
}

/// Appends the first `count` little-endian bytes of `word` to `sink`.
fn push_le_bytes(sink: &mut Vec<u8>, word: u64, count: usize)
    requires
        count <= 8,
    ensures
        final(sink)@ == old(sink)@ + le_bytes(word, count as nat),
{
    let mut k: usize = 0;
    while k < count
        invariant
            k <= count <= 8,
            sink@ == old(sink)@ + le_bytes(word, k as nat),
        decreases count - k,
    {
        let b = byte_of(word, k);
        sink.push(b);
        proof {
            assert(sink@ =~= old(sink)@ + le_bytes(word, (k + 1) as nat));
        }
        k += 1;
    }
}

/// The mask selecting the low `n` bits of a word.
fn low_mask(n: usize) -> (m: u64)
    requires
        n < 64,
    ensures
        m == ((1u64 << (n as u64)) - 1) as u64,
{
    proof {
        lemma2_to64();
        lemma_pow2_pos(n as nat);
        vstd::bits::lemma_u64_pow2_no_overflow(n as nat);
        lemma_u64_shl_is_mul(1, n as u64);
    }
    (1u64 << n) - 1
}

impl BitWriter {
    /// Every bit written so far: those of the bytes already emitted, then
    /// those still pending in the accumulator.
    pub closed spec fn bits(self) -> Seq<bool> {
        bytes_bits(self.sink@) + self.acc.bits()
    }

    /// How many bits wait in the accumulator.
    pub closed spec fn pending(self) -> nat {
        self.acc.length as nat
    }

    /// The bytes emitted so far.
    pub closed spec fn emitted(self) -> Seq<u8> {
        self.sink@
    }

    /// The bytes emitted hold the first of the bits written, and the
    /// accumulator the rest.
    pub proof fn lemma_emitted(self)
        ensures
            self.bits().len() == 8 * self.emitted().len() + self.pending(),
            self.bits().take(8 * self.emitted().len() as int) == bytes_bits(self.emitted()),
    {
        assert(self.bits().take(8 * self.emitted().len() as int) =~= bytes_bits(self.emitted()));
    }

    /// A writer that appends to `sink`, with an empty accumulator.
    pub fn new(sink: Vec<u8>) -> (w: Self)
        ensures
            w.emitted() == sink@,
            w.pending() == 0,
            w.bits() == bytes_bits(sink@),
    {
        let acc = Accumulator::empty();
        let w = BitWriter { sink, acc };
        proof {
            assert(w.bits() =~= bytes_bits(sink@));
        }
        w
    }

    /// Appends the low `length` bits of `data`, least significant first.
    ///
    /// When the accumulator reaches 64 bits, its 8 bytes are emitted and the
    /// bits beyond them stay pending. Writing zero bits changes nothing.
    pub fn write_bits(&mut self, data: u64, length: usize)
        requires
            length <= 64,
            length < 64 ==> (data as nat) < pow2(length as nat),
        ensures
            final(self).bits() == old(self).bits() + bits_of(data, length as nat),
            final(self).pending() == (old(self).pending() + length) % 64,
            old(self).pending() < 64,
            final(self).emitted().len() == old(self).emitted().len() + 8 * ((old(self).pending()
                + length) / 64),
            final(self).emitted().take(old(self).emitted().len() as int) == old(self).emitted(),
            length == 0 ==> *final(self) == *old(self),
    {
        proof {
            use_type_invariant(&self.acc);
            assert(self.sink@.take(self.sink@.len() as int) =~= self.sink@);
        }
        if length == 0 {
            proof {
                assert(bits_of(data, 0) =~= Seq::<bool>::empty());
                assert(self.bits() + bits_of(data, 0) =~= self.bits());
            }
            return ;
        }
        let len = self.acc.length;
        let buf = self.acc.buffer;
        let ghost sink0 = self.sink@;
        proof {
            lemma_fits_pow2(data, length as nat);
            lemma_or_shl_bits(buf, data, len as nat, if len + length < 64 {
                length as nat
            } else {
                (64 - len) as nat
            });
        }
        if len + length < 64 {
            let word = buf | (data << len);
            proof {
                bv_written_fits(buf, data, len as u64, length as u64);
            }
            self.acc = Accumulator { buffer: word, length: len + length };
            proof {
                assert(self.bits() =~= old(self).bits() + bits_of(data, length as nat));
            }
        } else {
            let word = buf | (data << len);
            push_le_bytes(&mut self.sink, word, 8);
            let rest = if len == 0 {
                0
            } else {
                data >> (64 - len)
            };
            proof {
                let taken = (64 - len) as nat;
                let left = (len + length - 64) as nat;
                lemma_le_bytes_bits(word, 8);
                lemma_bytes_bits_concat(sink0, le_bytes(word, 8));
                if len == 0 {
                    lemma_zero_bits(0);
                    assert(bits_of(rest, left) =~= bits_of(data, length as nat).skip(taken as int));
                } else {
                    lemma_shr_bits(data, taken, length as nat);
                }
                assert(bits_of(data, taken) =~= bits_of(data, length as nat).take(taken as int));
                assert(bits_of(data, length as nat) =~= bits_of(data, taken) + bits_of(rest, left));
                assert(self.sink@.take(sink0.len() as int) =~= sink0);
            }
            self.acc = Accumulator { buffer: rest, length: len + length - 64 };
            proof {
                assert(self.bits() =~= old(self).bits() + bits_of(data, length as nat));
            }
        }
    }

    /// Emits the pending bits, padded with clear bits to a whole byte, and
    /// empties the accumulator.
    pub fn flush(&mut self)
        ensures
            final(self).pending() == 0,
            final(self).bits() == old(self).bits() + zeros(
                ((8 - old(self).pending() % 8) % 8) as nat,
            ),
            old(self).bits().len() % 8 == old(self).pending() % 8,
            final(self).bits() == bytes_bits(final(self).emitted()),
            final(self).emitted().len() == old(self).emitted().len() + (old(self).pending() + 7)
                / 8,
            final(self).emitted().take(old(self).emitted().len() as int) == old(self).emitted(),
    {
        proof {
            use_type_invariant(&self.acc);
        }
        let len = self.acc.length;
        let buf = self.acc.buffer;
        let count = (len + 7) / 8;
        let ghost sink0 = self.sink@;
        proof {
            assert(self.bits().len() == 8 * sink0.len() + len);
        }
        push_le_bytes(&mut self.sink, buf, count);
        self.acc = Accumulator::empty();
        proof {
            lemma_le_bytes_bits(buf, count as nat);
            lemma_bytes_bits_concat(sink0, le_bytes(buf, count as nat));
            lemma_fits_bits(buf, len as nat, (8 * count) as nat);
            assert(8 * count - len == (8 - len % 8) % 8);
            assert(self.bits() =~= bytes_bits(self.sink@));
            assert(self.bits() =~= old(self).bits() + zeros(((8 - len % 8) % 8) as nat));
            assert(self.sink@.take(sink0.len() as int) =~= sink0);
        }
    }

    /// A view of the bytes emitted so far.
    pub fn bytes(&self) -> (r: &Vec<u8>)
        ensures
            r@ == self.emitted(),
    {
        &self.sink
    }

    /// Gives up the writer for the bytes emitted so far; pending bits are lost.
    pub fn into_bytes(self) -> (r: Vec<u8>)
        ensures
            r@ == self.emitted(),
    {
        self.sink
    }
}

proof fn bv_written_fits(buf: u64, data: u64, len: u64, n: u64)
    by (bit_vector)
    requires
        len + n < 64,
        buf >> len == 0,
        data >> n == 0,
    ensures
        (buf | (data << len)) >> ((len + n) as u64) == 0,
{
}

proof fn lemma_bytes_bits_subrange(a: Seq<u8>, i: nat, j: nat)
    requires
        i <= j <= a.len(),
    ensures
        bytes_bits(a.subrange(i as int, j as int)) == bytes_bits(a).subrange(8 * i as int, 8 * j as int),
{
    lemma_bytes_bits_skip(a, i);
    lemma_bytes_bits_skip(a.skip(i as int), (j - i) as nat);
    assert(a.subrange(i as int, j as int) =~= a.skip(i as int).take(j - i));
    assert(bytes_bits(a).skip(8 * i as int).take(8 * (j - i)) =~= bytes_bits(a).subrange(
        8 * i as int,
        8 * j as int,
    ));
}

impl<'a> BitReader<'a> {
    #[verifier::type_invariant]
    spec fn well_formed(self) -> bool {
        &&& self.position <= self.source@.len()
        &&& self.acc.length <= 8 * self.position
        &&& self.acc.bits() == bytes_bits(self.source@).subrange(
            8 * self.position - self.acc.length,
            8 * self.position as int,
        )
    }

    /// The bytes being read.
    pub closed spec fn source(self) -> Seq<u8> {
        self.source@
    }

    /// The index of the next byte to pull from the source.
    pub closed spec fn cursor(self) -> nat {
        self.position as nat
    }

    /// How many bits wait in the accumulator.
    pub closed spec fn buffered(self) -> nat {
        self.acc.length as nat
    }

    /// How many bits of the source have been handed out or dropped.
    pub open spec fn consumed(self) -> nat {
        (8 * self.cursor() - self.buffered()) as nat
    }

    /// The bits still to be read.
    pub open spec fn bits(self) -> Seq<bool> {
        bytes_bits(self.source()).skip(self.consumed() as int)
    }

    /// A reader at the start of `source`.
    pub fn new(source: &'a [u8]) -> (r: Self)
        ensures
            r.source() == source@,
            r.cursor() == 0,
            r.buffered() == 0,
    {
        let acc = Accumulator::empty();
        proof {
            assert(bytes_bits(source@).subrange(0, 0) =~= Seq::<bool>::empty());
        }
        BitReader { source, position: 0, acc }
    }

    /// Reads the next `length` bits as the low bits of a word, least
    /// significant first.
    ///
    /// When the accumulator holds fewer bits than asked for, up to 8 more
    /// bytes are pulled from the source. Fails, leaving the reader as it was,
    /// when the source holds too few bits.
    #[verifier::rlimit(30)]
    pub fn read_bits(&mut self, length: usize) -> (r: Result<u64, UnexpectedEof>)
        requires
            length <= 64,
        ensures
            final(self).source() == old(self).source(),
            old(self).buffered() <= 8 * old(self).cursor() <= 8 * old(self).source().len(),
            match r {
                Ok(v) => {
                    &&& old(self).consumed() + length <= 8 * old(self).source().len()
                    &&& final(self).consumed() == old(self).consumed() + length
                    &&& final(self).buffered() <= 8 * final(self).cursor()
                    &&& final(self).cursor() <= final(self).source().len()
                    &&& bits_of(v, length as nat) == old(self).bits().take(length as int)
                    &&& v == value_of(old(self).bits().take(length as int))
                    &&& length < 64 ==> (v as nat) < pow2(length as nat)
                },
                Err(_) => {
                    &&& old(self).consumed() + length > 8 * old(self).source().len()
                    &&& *final(self) == *old(self)
                },
            },
    {
        proof {
            use_type_invariant(&*self);
            use_type_invariant(&self.acc);
        }
        let len = self.acc.length;
        let buf = self.acc.buffer;
        let pos = self.position;
        let ghost all = bytes_bits(self.source@);
        let ghost start = (8 * pos - len) as int;
        if length == 0 {
            proof {
                lemma_zero_bits(0);
                lemma2_to64();
                assert(self.bits().take(0) =~= Seq::<bool>::empty());
                assert(bits_of(0u64, 0) =~= Seq::<bool>::empty());
            }
            return Ok(0);
        }
        if length <= len {
            let mask = low_mask(length);
            let v = buf & mask;
            let rest = buf >> length;
            proof {
                lemma_mask_bits(buf, length as nat, len as nat);
                lemma_shr_bits(buf, length as nat, len as nat);
                lemma_fits_pow2(v, length as nat);
                lemma_value_of_bits(v, length as nat);
                assert(bits_of(buf, len as nat).take(length as int) =~= all.skip(start).take(
                    length as int,
                ));
                assert(bits_of(buf, len as nat).skip(length as int) =~= all.subrange(
                    start + length,
                    8 * pos as int,
                ));
            }
            *self = BitReader {
                source: self.source,
                position: pos,
                acc: Accumulator { buffer: rest, length: len - length },
            };
            Ok(v)
        } else {
            let remaining = self.source.len() - pos;
            let n: usize = if remaining < 8 {
                remaining
            } else {
                8
            };
            if len + 8 * n < length {
                return Err(UnexpectedEof);
            }
            let mut chunk: u64 = 0;
            let mut k: usize = 0;
            proof {
                lemma_zero_bits(0);
                assert(bytes_bits(self.source@.subrange(pos as int, pos as int)) =~= bits_of(
                    0u64,
                    0,
                ));
            }
            while k < n
                invariant
                    k <= n <= 8,
                    pos + n <= self.source@.len() <= usize::MAX,
                    fits(chunk, (8 * k) as nat),
                    bits_of(chunk, (8 * k) as nat) == bytes_bits(
                        self.source@.subrange(pos as int, pos + k),
                    ),
                decreases n - k,
            {
                let b = self.source[pos + k];
                proof {
                    lemma_or_byte_bits(
                        chunk,
                        b,
                        k as nat,
                        self.source@.subrange(pos as int, pos + k),
                    );
                    assert(self.source@.subrange(pos as int, pos + k).push(b)
                        =~= self.source@.subrange(pos as int, pos + k + 1));
                }
                chunk = chunk | ((b as u64) << (8 * k as u64));
                k += 1;
            }
            let shift = length - len;
            let word = buf | (chunk << len);
            let v = if length == 64 {
                word
            } else {
                word & low_mask(length)
            };
            let rest = if shift == 64 {
                0
            } else {
                chunk >> shift
            };
            proof {
                lemma_bytes_bits_subrange(self.source@, pos as nat, (pos + n) as nat);
                lemma_or_shl_bits(buf, chunk, len as nat, shift as nat);
                assert(bits_of(chunk, shift as nat) =~= bits_of(chunk, (8 * n) as nat).take(
                    shift as int,
                ));
                if length < 64 {
                    lemma_mask_bits(word, length as nat, length as nat);
                    assert(bits_of(word, length as nat).take(length as int) =~= bits_of(
                        word,
                        length as nat,
                    ));
                }
                lemma_fits_pow2(v, length as nat);
                lemma_value_of_bits(v, length as nat);
                assert(bits_of(v, length as nat) =~= all.skip(start).take(length as int));
                if shift == 64 {
                    lemma_zero_bits(0);
                    assert(bits_of(0u64, 0) =~= all.subrange(8 * (pos + n) as int, 8 * (pos + n)));
                } else {
                    lemma_shr_bits(chunk, shift as nat, (8 * n) as nat);
                    assert(bits_of(chunk, (8 * n) as nat).skip(shift as int) =~= all.subrange(
                        start + length,
                        8 * (pos + n),
                    ));
                }
            }
            *self = BitReader {
                source: self.source,
                position: pos + n,
                acc: Accumulator { buffer: rest, length: len + 8 * n - length },
            };
            Ok(v)
        }
    }

    /// Returns to the source the whole bytes still waiting in the accumulator
    /// and drops the bits left over from a partly read byte, so that the cursor
    /// stands on the first byte after the bits read so far.
    pub fn put_back_extra(&mut self)
        ensures
            final(self).source() == old(self).source(),
            final(self).buffered() == 0,
            final(self).cursor() == (old(self).consumed() + 7) / 8,
            final(self).cursor() <= final(self).source().len(),
    {
        proof {
            use_type_invariant(&*self);
            use_type_invariant(&self.acc);
        }
        let nbytes = self.acc.length / 8;
        let position = self.position - nbytes;
        let acc = Accumulator::empty();
        proof {
            assert(bytes_bits(self.source@).subrange(8 * position as int, 8 * position as int)
                =~= Seq::<bool>::empty());
        }
        *self = BitReader { source: self.source, position, acc };
    }

    /// The index of the next byte that the reader would pull from its source.
    pub fn position(&self) -> (r: usize)
        ensures
            r == self.cursor(),
    {
        self.position
    }
}

/// A field to write: the low `length` bits of `data`.
pub struct Field {
    pub data: u64,
    pub length: nat,
}

/// The bits of the fields, one after the other: what a writer holds after
/// `write_bits` for each of them.
pub open spec fn fields_bits(fields: Seq<Field>) -> Seq<bool>
    decreases fields.len(),
{
    if fields.len() == 0 {
        Seq::empty()
    } else {
        fields_bits(fields.drop_last()) + bits_of(fields.last().data, fields.last().length)
    }
}

/// What is read back is what was written: where the bits of fields that fit
/// their lengths are followed by anything, such as the padding of `flush`,
/// the bits of field `k` stand behind those of the fields before it, and
/// spell its data.
///
/// So a reader over the bytes of a writer, asked for the fields' lengths in
/// turn, returns the fields' data in turn.
pub proof fn lemma_fields_round_trip(fields: Seq<Field>, rest: Seq<bool>, k: int)
    requires
        0 <= k < fields.len(),
        forall|i: int|
            0 <= i < fields.len() ==> (#[trigger] fields[i]).length <= 64 && (fields[i].length < 64
                ==> (fields[i].data as nat) < pow2(fields[i].length)),
    ensures
        ({
            let all = fields_bits(fields) + rest;
            let start = fields_bits(fields.take(k)).len() as int;
            &&& start + fields[k].length <= all.len()
            &&& all.skip(start).take(fields[k].length as int) == bits_of(
                fields[k].data,
                fields[k].length,
            )
            &&& value_of(all.skip(start).take(fields[k].length as int)) == fields[k].data
        }),
    decreases fields.len(),
{
    let all = fields_bits(fields) + rest;
    let init = fields.drop_last();
    let last = fields.last();
    let start = fields_bits(fields.take(k)).len() as int;
    if k == fields.len() - 1 {
        assert(fields.take(k) =~= init);
        assert(all.skip(start).take(last.length as int) =~= bits_of(last.data, last.length));
        lemma_value_of_bits(last.data, last.length);
    } else {
        lemma_fields_round_trip(init, bits_of(last.data, last.length) + rest, k);
        assert(init.take(k) =~= fields.take(k));
        assert(fields_bits(init) + (bits_of(last.data, last.length) + rest) =~= all);
    }
}

} // verus!
