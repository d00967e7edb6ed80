//! Reversal of the bit order of fixed-width unsigned integers.

use vstd::prelude::*;

verus! {

/// Integers whose bits can be put in the opposite order.
pub trait ReverseBits: Sized {
    /// The number of bits of the type.
    spec fn width() -> nat;

    /// Whether bit `i` (counted from the least significant) is set.
    spec fn bit(self, i: nat) -> bool;

    /// Mirrors the bits: bit `i` of the result is bit `width - 1 - i` of `self`.
    fn reverse_bits(self) -> (r: Self)
        ensures
            forall|i: nat| i < Self::width() ==> r.bit(i) == self.bit((Self::width() - 1 - i) as nat),
    ;
}

impl ReverseBits for u8 {
    open spec fn width() -> nat {
        8
    }

    open spec fn bit(self, i: nat) -> bool {
        (self >> (i as u8)) & 1 == 1
    }

    fn reverse_bits(self) -> (r: u8) {
        // Swap the two nibbles, then the pairs within each nibble, then the
        // bits within each pair.
        let a: u8 = ((self & 0xF0) >> 4) | ((self & 0x0F) << 4);
        let b: u8 = ((a & 0xCC) >> 2) | ((a & 0x33) << 2);
        let r: u8 = ((b & 0xAA) >> 1) | ((b & 0x55) << 1);
        proof {
            let x = self;
            assert(forall|i: u8| i < 8 ==> ((r >> i) & 1 == 1) == ((x >> ((7 - i) as u8)) & 1 == 1))
                by (bit_vector)
                requires
                    a == ((x & 0xF0) >> 4) | ((x & 0x0F) << 4),
                    b == ((a & 0xCC) >> 2) | ((a & 0x33) << 2),
                    r == ((b & 0xAA) >> 1) | ((b & 0x55) << 1),
            ;
            assert forall|i: nat| i < 8 implies r.bit(i) == self.bit((8 - 1 - i) as nat) by {
                let k = i as u8;
                assert(((r >> k) & 1 == 1) == ((x >> ((7 - k) as u8)) & 1 == 1));
            }
        }
        r
    }
}

impl ReverseBits for u16 {
    open spec fn width() -> nat {
        16
    }

    open spec fn bit(self, i: nat) -> bool {
        (self >> (i as u16)) & 1 == 1
    }

    fn reverse_bits(self) -> (r: u16) {
        let a: u16 = ((self & 0xFF00) >> 8) | ((self & 0x00FF) << 8);
        let b: u16 = ((a & 0xF0F0) >> 4) | ((a & 0x0F0F) << 4);
        let c: u16 = ((b & 0xCCCC) >> 2) | ((b & 0x3333) << 2);
        let r: u16 = ((c & 0xAAAA) >> 1) | ((c & 0x5555) << 1);
        proof {
            let x = self;
            assert(forall|i: u16| i < 16 ==> ((r >> i) & 1 == 1) == ((x >> ((15 - i) as u16)) & 1 == 1))
                by (bit_vector)
                requires
                    a == ((x & 0xFF00) >> 8) | ((x & 0x00FF) << 8),
                    b == ((a & 0xF0F0) >> 4) | ((a & 0x0F0F) << 4),
                    c == ((b & 0xCCCC) >> 2) | ((b & 0x3333) << 2),
                    r == ((c & 0xAAAA) >> 1) | ((c & 0x5555) << 1),
            ;
            assert forall|i: nat| i < 16 implies r.bit(i) == self.bit((16 - 1 - i) as nat) by {
                let k = i as u16;
                assert(((r >> k) & 1 == 1) == ((x >> ((15 - k) as u16)) & 1 == 1));
            }
        }
        r
    }
}

impl ReverseBits for u32 {
    open spec fn width() -> nat {
        32
    }

    open spec fn bit(self, i: nat) -> bool {
        (self >> (i as u32)) & 1 == 1
    }

    fn reverse_bits(self) -> (r: u32) {
        let a: u32 = ((self & 0xFFFF_0000) >> 16) | ((self & 0x0000_FFFF) << 16);
        let b: u32 = ((a & 0xFF00_FF00) >> 8) | ((a & 0x00FF_00FF) << 8);
        let c: u32 = ((b & 0xF0F0_F0F0) >> 4) | ((b & 0x0F0F_0F0F) << 4);
        let d: u32 = ((c & 0xCCCC_CCCC) >> 2) | ((c & 0x3333_3333) << 2);
        let r: u32 = ((d & 0xAAAA_AAAA) >> 1) | ((d & 0x5555_5555) << 1);
        proof {
            let x = self;
            assert(forall|i: u32| i < 32 ==> ((r >> i) & 1 == 1) == ((x >> ((31 - i) as u32)) & 1 == 1))
                by (bit_vector)
                requires
                    a == ((x & 0xFFFF_0000) >> 16) | ((x & 0x0000_FFFF) << 16),
                    b == ((a & 0xFF00_FF00) >> 8) | ((a & 0x00FF_00FF) << 8),
                    c == ((b & 0xF0F0_F0F0) >> 4) | ((b & 0x0F0F_0F0F) << 4),
                    d == ((c & 0xCCCC_CCCC) >> 2) | ((c & 0x3333_3333) << 2),
                    r == ((d & 0xAAAA_AAAA) >> 1) | ((d & 0x5555_5555) << 1),
            ;
            assert forall|i: nat| i < 32 implies r.bit(i) == self.bit((32 - 1 - i) as nat) by {
                let k = i as u32;
                assert(((r >> k) & 1 == 1) == ((x >> ((31 - k) as u32)) & 1 == 1));
            }
        }
        r
    }
}

impl ReverseBits for u64 {
    open spec fn width() -> nat {
        64
    }

    open spec fn bit(self, i: nat) -> bool {
        (self >> (i as u64)) & 1 == 1
    }

    fn reverse_bits(self) -> (r: u64) {
        let a: u64 = ((self & 0xFFFF_FFFF_0000_0000) >> 32) | ((self & 0x0000_0000_FFFF_FFFF) << 32);
        let b: u64 = ((a & 0xFFFF_0000_FFFF_0000) >> 16) | ((a & 0x0000_FFFF_0000_FFFF) << 16);
        let c: u64 = ((b & 0xFF00_FF00_FF00_FF00) >> 8) | ((b & 0x00FF_00FF_00FF_00FF) << 8);
        let d: u64 = ((c & 0xF0F0_F0F0_F0F0_F0F0) >> 4) | ((c & 0x0F0F_0F0F_0F0F_0F0F) << 4);
        let e: u64 = ((d & 0xCCCC_CCCC_CCCC_CCCC) >> 2) | ((d & 0x3333_3333_3333_3333) << 2);
        let r: u64 = ((e & 0xAAAA_AAAA_AAAA_AAAA) >> 1) | ((e & 0x5555_5555_5555_5555) << 1);
        proof {
            let x = self;
            assert(forall|i: u64| i < 64 ==> ((r >> i) & 1 == 1) == ((x >> ((63 - i) as u64)) & 1 == 1))
                by (bit_vector)
                requires
                    a == ((x & 0xFFFF_FFFF_0000_0000) >> 32) | ((x & 0x0000_0000_FFFF_FFFF) << 32),
                    b == ((a & 0xFFFF_0000_FFFF_0000) >> 16) | ((a & 0x0000_FFFF_0000_FFFF) << 16),
                    c == ((b & 0xFF00_FF00_FF00_FF00) >> 8) | ((b & 0x00FF_00FF_00FF_00FF) << 8),
                    d == ((c & 0xF0F0_F0F0_F0F0_F0F0) >> 4) | ((c & 0x0F0F_0F0F_0F0F_0F0F) << 4),
                    e == ((d & 0xCCCC_CCCC_CCCC_CCCC) >> 2) | ((d & 0x3333_3333_3333_3333) << 2),
                    r == ((e & 0xAAAA_AAAA_AAAA_AAAA) >> 1) | ((e & 0x5555_5555_5555_5555) << 1),
            ;
            assert forall|i: nat| i < 64 implies r.bit(i) == self.bit((64 - 1 - i) as nat) by {
                let k = i as u64;
                assert(((r >> k) & 1 == 1) == ((x >> ((63 - k) as u64)) & 1 == 1));
            }
        }
        r
    }
}

} // verus!
