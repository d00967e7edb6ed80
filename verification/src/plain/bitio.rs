//! Writing and reading single bits, packed into bytes from the most
//! significant bit down.

use vstd::prelude::*;
use crate::canonical::msb_value;

verus! {

/// Whether bit `i` of `x` is set.
pub open spec fn bit_of(x: u8, i: nat) -> bool {
    i < 8 && (x >> (i as u8)) & 1 == 1
}

/// The low `n` bits of `x`, most significant first.
pub open spec fn low_bits(x: u8, n: nat) -> Seq<bool> {
    Seq::new(n, |i: int| bit_of(x, (n - 1 - i) as nat))
}

/// The bits of a byte sequence, each byte from its most significant bit down.
pub open spec fn byte_bits(bytes: Seq<u8>) -> Seq<bool> {
    Seq::new(8 * bytes.len(), |i: int| bit_of(bytes[i / 8], (7 - i % 8) as nat))
}

/// `n` clear bits.
pub open spec fn clear_bits(n: nat) -> Seq<bool> {
    Seq::new(n, |i: int| false)
}

proof fn bv_push_bit(buffer: u8, bit: u8, len: u8, i: u8)
    by (bit_vector)
    requires
        len < 8,
        i <= len,
        buffer >> len == 0,
    ensures
        ((((buffer << 1) | (bit & 1)) >> i) & 1 == 1) == (if i == 0 {
            bit & 1 == 1
        } else {
            (buffer >> ((i - 1) as u8)) & 1 == 1
        }),
        len < 7 ==> ((buffer << 1) | (bit & 1)) >> ((len + 1) as u8) == 0,
{
}

proof fn bv_pad(buffer: u8, len: u8, i: u8)
    by (bit_vector)
    requires
        1 <= len <= 8,
        i < 8,
        len < 8 ==> buffer >> len == 0,
    ensures
        (((if len == 8 { buffer } else { buffer << ((8 - len) as u8) }) >> i) & 1 == 1) == (i + len
            >= 8 && (buffer >> ((i + len - 8) as u8)) & 1 == 1),
{
}

proof fn bv_bit_value(x: u8, i: u8)
    by (bit_vector)
    requires
        i < 8,
    ensures
        (x >> i) & 1 <= 1,
        ((x >> i) & 1) & 1 == (x >> i) & 1,
        ((x >> i) & 1 == 1) == ((x >> i) & 1 != 0),
        x >> 0 == x,
        (x & 1 == 1) == ((x >> 0) & 1 == 1),
{
}

proof fn bv_shift_in(result: u8, bit: u8)
    by (bit_vector)
    requires
        bit <= 1,
    ensures
        ((result << 1) | bit) as int == (2 * (result as int) + bit as int) % 256,
{
}

/// Packs bits into a growing byte buffer.
pub struct BitWriter {
    sink: Vec<u8>,
    pending: Pending,
}

/// Up to 7 bits that wait for a byte to be full, in the low end of a byte.
#[derive(Clone, Copy)]
struct Pending {
    buffer: u8,
    length: u8,
}

impl Pending {
    #[verifier::type_invariant]
    spec fn well_formed(self) -> bool {
        self.length < 8 && self.buffer >> self.length == 0
    }

    spec fn bits(self) -> Seq<bool> {
        low_bits(self.buffer, self.length as nat)
    }

    fn none() -> (r: Self)
        ensures
            r.length == 0,
            r.bits() == Seq::<bool>::empty(),
    {
        proof {
            bv_bit_value(0, 0);
            assert(low_bits(0, 0) =~= Seq::<bool>::empty());
        }
        Pending { buffer: 0, length: 0 }
    }
}

proof fn lemma_byte_bits_push(bytes: Seq<u8>, b: u8)
    ensures
        byte_bits(bytes.push(b)) == byte_bits(bytes) + low_bits(b, 8),
{
    assert forall|i: int| 0 <= i < 8 * (bytes.len() + 1) implies byte_bits(bytes.push(b))[i] == (
    byte_bits(bytes) + low_bits(b, 8))[i] by {
        if i >= 8 * bytes.len() {
            let j = i - 8 * bytes.len();
            assert(i / 8 == bytes.len() && i % 8 == j);
        }
    }
    assert(byte_bits(bytes.push(b)) =~= byte_bits(bytes) + low_bits(b, 8));
}

impl BitWriter {
    /// Every bit written so far: those of the bytes emitted, then those that
    /// wait.
    pub closed spec fn bits(self) -> Seq<bool> {
        byte_bits(self.sink@) + self.pending.bits()
    }

    /// The bytes emitted so far.
    pub closed spec fn emitted(self) -> Seq<u8> {
        self.sink@
    }

    /// How many bits wait for a byte to be full.
    pub closed spec fn waiting(self) -> nat {
        self.pending.length as nat
    }

    /// A writer that appends to `sink`.
    pub fn new(sink: Vec<u8>) -> (w: Self)
        ensures
            w.bits() == byte_bits(sink@),
            w.emitted() == sink@,
            w.waiting() == 0,
    {
        let pending = Pending::none();
        let w = BitWriter { sink, pending };
        proof {
            assert(w.bits() =~= byte_bits(sink@));
        }
        w
    }

    /// Appends the lowest bit of `bit`. The eighth bit that waits fills a
    /// byte, which is emitted.
    pub fn write_bit(&mut self, bit: u8)
        ensures
            final(self).bits() == old(self).bits().push(bit & 1 == 1),
            final(self).waiting() == (old(self).waiting() + 1) % 8,
            old(self).waiting() < 8,
    {
        proof {
            use_type_invariant(&self.pending);
        }
        let length = self.pending.length;
        let buffer = self.pending.buffer;
        let next = (buffer << 1) | (bit & 1);
        proof {
            bv_push_bit(buffer, bit, length, 0);
            let more = low_bits(next, (length + 1) as nat);
            let pushed = low_bits(buffer, length as nat).push(bit & 1 == 1);
            assert forall|i: int| 0 <= i < more.len() implies #[trigger] more[i] == pushed[i] by {
                bv_push_bit(buffer, bit, length, (length - i) as u8);
            }
            assert(more =~= pushed);
        }
        if length + 1 == 8 {
            let ghost before = self.sink@;
            self.sink.push(next);
            self.pending = Pending::none();
            proof {
                lemma_byte_bits_push(before, next);
                assert(self.bits() =~= old(self).bits().push(bit & 1 == 1));
            }
        } else {
            self.pending = Pending { buffer: next, length: length + 1 };
            proof {
                assert(self.bits() =~= old(self).bits().push(bit & 1 == 1));
            }
        }
    }

    /// Emits the bits that wait as one byte, filled up with clear bits below
    /// them. Does nothing when no bit waits.
    pub fn flush_buffer(&mut self)
        ensures
            final(self).waiting() == 0,
            old(self).waiting() < 8,
            final(self).bits() == old(self).bits() + clear_bits(
                ((8 - old(self).waiting()) % 8) as nat,
            ),
            final(self).bits() == byte_bits(final(self).emitted()),
    {
        proof {
            use_type_invariant(&self.pending);
        }
        let length = self.pending.length;
        let buffer = self.pending.buffer;
        if length > 0 {
            let byte = buffer << (8 - length);
            let ghost before = self.sink@;
            self.sink.push(byte);
            self.pending = Pending::none();
            proof {
                lemma_byte_bits_push(before, byte);
                let whole = low_bits(byte, 8);
                let padded = low_bits(buffer, length as nat) + clear_bits((8 - length) as nat);
                assert forall|i: int| 0 <= i < 8 implies #[trigger] whole[i] == padded[i] by {
                    bv_pad(buffer, length, (7 - i) as u8);
                }
                assert(whole =~= padded);
                assert(self.bits() =~= old(self).bits() + clear_bits((8 - length) as nat));
                assert(self.bits() =~= byte_bits(self.sink@));
            }
        } else {
            proof {
                assert(self.bits() =~= old(self).bits() + clear_bits(0));
                assert(self.bits() =~= byte_bits(self.sink@));
            }
        }
    }

    /// Appends the low `num_bits` bits of `bits`, most significant first.
    pub fn write_bits(&mut self, bits: u8, num_bits: u8)
        requires
            num_bits <= 8,
        ensures
            final(self).bits() == old(self).bits() + low_bits(bits, num_bits as nat),
    {
        let mut i = num_bits;
        proof {
            assert(self.bits() + Seq::<bool>::empty() =~= self.bits());
        }
        while i > 0
            invariant
                i <= num_bits <= 8,
                self.bits() == old(self).bits() + low_bits(bits, num_bits as nat).take(
                    num_bits - i,
                ),
            decreases i,
        {
            i -= 1;
            proof {
                bv_bit_value(bits, i);
            }
            self.write_bit((bits >> i) & 1);
            proof {
                let all = low_bits(bits, num_bits as nat);
                assert(all[num_bits - i - 1] == bit_of(bits, i as nat));
                assert(all.take(num_bits - i) =~= all.take(num_bits - i - 1).push(
                    all[num_bits - i - 1],
                ));
                assert(self.bits() =~= old(self).bits() + all.take(num_bits - i));
            }
        }
        proof {
            let all = low_bits(bits, num_bits as nat);
            assert(all.take(num_bits as int) =~= all);
        }
    }

    /// A view of the bytes emitted so far.
    pub fn bytes(&self) -> (r: &Vec<u8>)
        ensures
            r@ == self.emitted(),
    {
        &self.sink
    }

    /// As many bits wait as are written past the last whole byte.
    pub proof fn lemma_waiting(self)
        ensures
            self.bits().len() == 8 * self.emitted().len() + self.waiting(),
    {
    }

    /// Flushes, and gives up the writer for its bytes.
    pub fn into_bytes(self) -> (r: Vec<u8>)
        ensures
            byte_bits(r@) == self.bits() + clear_bits(((8 - self.bits().len() % 8) % 8) as nat),
    {
        proof {
            self.lemma_waiting();
            use_type_invariant(&self.pending);
            assert(self.bits().len() % 8 == self.waiting());
        }
        let mut writer = self;
        writer.flush_buffer();
        writer.sink
    }
}

/// Unpacks bits from a byte slice.
pub struct BitReader<'a> {
    source: &'a [u8],
    position: usize,
    pending: Unread,
}

/// The bits of the last byte taken from the source that are not read yet:
/// the low `length` bits of `buffer`.
#[derive(Clone, Copy)]
struct Unread {
    buffer: u8,
    length: u8,
}

impl Unread {
    #[verifier::type_invariant]
    spec fn well_formed(self) -> bool {
        self.length <= 8
    }
}

impl<'a> BitReader<'a> {
    #[verifier::type_invariant]
    spec fn well_formed(self) -> bool {
        self.position <= self.source@.len()
    }

    /// The bits still to be read.
    pub closed spec fn bits(self) -> Seq<bool> {
        low_bits(self.pending.buffer, self.pending.length as nat) + byte_bits(
            self.source@.skip(self.position as int),
        )
    }

    /// A reader at the start of `source`.
    pub fn new(source: &'a [u8]) -> (r: Self)
        ensures
            r.bits() == byte_bits(source@),
    {
        let r = BitReader { source, position: 0, pending: Unread { buffer: 0, length: 0 } };
        proof {
            assert(source@.skip(0) =~= source@);
            assert(r.bits() =~= byte_bits(source@));
        }
        r
    }

    /// Reads the next bit; `None` at the end of the source.
    pub fn read_bit(&mut self) -> (r: Option<u8>)
        ensures
            match r {
                Some(bit) => old(self).bits().len() > 0 && bit == (if old(self).bits()[0] {
                    1u8
                } else {
                    0u8
                }) && final(self).bits() == old(self).bits().skip(1),
                None => old(self).bits().len() == 0 && final(self).bits().len() == 0,
            },
    {
        proof {
            use_type_invariant(&*self);
            use_type_invariant(&self.pending);
        }
        let mut buffer = self.pending.buffer;
        let mut length = self.pending.length;
        let mut position = self.position;
        if length == 0 {
            if position >= self.source.len() {
                return None;
            }
            buffer = self.source[position];
            length = 8;
            proof {
                let rest = self.source@.skip(position as int);
                assert(rest =~= seq![buffer] + rest.skip(1));
                assert(rest.skip(1) =~= self.source@.skip(position + 1));
                assert(seq![buffer] =~= Seq::<u8>::empty().push(buffer));
                lemma_byte_bits_push(Seq::empty(), buffer);
                lemma_byte_bits_concat(seq![buffer], rest.skip(1));
                assert(byte_bits(Seq::<u8>::empty()) + low_bits(buffer, 8) =~= low_bits(buffer, 8));
                assert(self.bits() =~= low_bits(buffer, 8) + byte_bits(
                    self.source@.skip(position + 1),
                ));
            }
            position = position + 1;
        }
        length -= 1;
        let bit = (buffer >> length) & 1;
        proof {
            bv_bit_value(buffer, length);
            let before = low_bits(buffer, (length + 1) as nat);
            assert(before.skip(1) =~= low_bits(buffer, length as nat));
            assert(before[0] == (bit == 1));
            let tail = byte_bits(self.source@.skip(position as int));
            assert((before + tail).skip(1) =~= before.skip(1) + tail);
        }
        *self = BitReader { source: self.source, position, pending: Unread { buffer, length } };
        Some(bit)
    }

    /// Reads the next `num_bits` bits as a number, most significant bit
    /// first; of more than 8 bits the last 8 are kept. `None` if the source
    /// ends before that many bits, and then no bits are left.
    pub fn read_bits(&mut self, num_bits: u8) -> (r: Option<u8>)
        ensures
            match r {
                Some(v) => old(self).bits().len() >= num_bits && v == msb_value(
                    old(self).bits().take(num_bits as int),
                ) % 256 && final(self).bits() == old(self).bits().skip(num_bits as int),
                None => old(self).bits().len() < num_bits && final(self).bits().len() == 0,
            },
    {
        let mut result: u8 = 0;
        let mut i: u8 = 0;
        let ghost all = self.bits();
        proof {
            assert(all.skip(0) =~= all);
            assert(all.take(0) =~= Seq::<bool>::empty());
        }
        while i < num_bits
            invariant
                i <= num_bits,
                all == old(self).bits(),
                i <= all.len(),
                self.bits() == all.skip(i as int),
                result == msb_value(all.take(i as int)) % 256,
            decreases num_bits - i,
        {
            match self.read_bit() {
                Some(bit) => {
                    proof {
                        bv_shift_in(result, bit);
                        let more = all.take(i + 1);
                        assert(more.drop_last() =~= all.take(i as int));
                        assert(more.last() == all.skip(i as int)[0]);
                        assert(all.skip(i as int).skip(1) =~= all.skip(i + 1));
                        let v = msb_value(all.take(i as int)) as int;
                        assert((2 * (v % 256) + bit) % 256 == (2 * v + bit) % 256);
                    }
                    result = (result << 1) | bit;
                },
                None => {
                    return None;
                },
            }
            i += 1;
        }
        Some(result)
    }
}

proof fn lemma_byte_bits_concat(a: Seq<u8>, b: Seq<u8>)
    ensures
        byte_bits(a + b) == byte_bits(a) + byte_bits(b),
{
    assert forall|i: int| 0 <= i < 8 * (a.len() + b.len()) implies byte_bits(a + b)[i] == (byte_bits(
        a,
    ) + byte_bits(b))[i] by {
        if i >= 8 * a.len() {
            let j = i - 8 * a.len();
            assert(i / 8 == j / 8 + a.len());
            assert(i % 8 == j % 8);
        }
    }
    assert(byte_bits(a + b) =~= byte_bits(a) + byte_bits(b));
}

} // verus!
