use deflate_codec::nonmax::{NonMaxU16, NonMaxU32, NonMaxU64, NonMaxUsize};
use deflate_codec::reverse_bits::ReverseBits;

#[test]
fn the_maximum_is_not_wrapped() {
    assert!(NonMaxU16::new(u16::MAX).is_none());
    assert!(NonMaxU32::new(u32::MAX).is_none());
    assert!(NonMaxU64::new(u64::MAX).is_none());
    assert!(NonMaxUsize::new(usize::MAX).is_none());
}

#[test]
fn other_values_come_back() {
    for v in [0u16, 1, 255, 256, u16::MAX - 1] {
        assert_eq!(NonMaxU16::new(v).unwrap().get(), v);
    }
    for v in [0u32, 1, 70000, u32::MAX - 1] {
        assert_eq!(NonMaxU32::new(v).unwrap().get(), v);
    }
    for v in [0u64, 1, 1 << 40, u64::MAX - 1] {
        assert_eq!(NonMaxU64::new(v).unwrap().get(), v);
    }
    for v in [0usize, 1, 12345, usize::MAX - 1] {
        assert_eq!(NonMaxUsize::new(v).unwrap().get(), v);
    }
}

#[test]
fn bits_are_mirrored() {
    assert_eq!(ReverseBits::reverse_bits(0b0000_0001u8), 0b1000_0000);
    assert_eq!(ReverseBits::reverse_bits(0b0001_0110u8), 0b0110_1000);
    assert_eq!(ReverseBits::reverse_bits(0x0001u16), 0x8000);
    assert_eq!(ReverseBits::reverse_bits(0x0000_0003u32), 0xc000_0000);
    assert_eq!(ReverseBits::reverse_bits(0x1u64), 0x8000_0000_0000_0000);
}

#[test]
fn mirroring_agrees_with_the_standard_library() {
    let mut state: u64 = 1;
    for _ in 0..1000 {
        state = state.wrapping_mul(6364136223846793005).wrapping_add(1442695040888963407);
        assert_eq!(ReverseBits::reverse_bits(state), u64::reverse_bits(state));
        assert_eq!(ReverseBits::reverse_bits(state as u32), u32::reverse_bits(state as u32));
        assert_eq!(ReverseBits::reverse_bits(state as u16), u16::reverse_bits(state as u16));
        assert_eq!(ReverseBits::reverse_bits(state as u8), u8::reverse_bits(state as u8));
    }
}
