use deflate_codec::bitio::BitReader;
use deflate_codec::deflate::{compress, decompress, decompress_block, DeflateOptions};
use deflate_codec::format::DeflateError;
use deflate_codec::package_merge::{package_merge, PackageMergeError};

fn round_trip(data: &[u8], block_size: usize) -> Vec<u8> {
    let packed = compress(data, DeflateOptions { block_size });
    let (out, used) = decompress(&packed).unwrap();
    assert_eq!(used, packed.len());
    out
}

#[test]
fn single_byte_round_trips() {
    let data = [0x41u8];
    let packed = compress(&data, DeflateOptions::default());
    // one final block of type 2: the low three bits are 1, 0, 1
    assert_eq!(packed[0] & 0b111, 0b101);
    let (out, used) = decompress(&packed).unwrap();
    assert_eq!(out, data.to_vec());
    assert_eq!(used, packed.len());
}

#[test]
fn repeated_byte_round_trips() {
    let data = [0x41u8; 4];
    assert_eq!(round_trip(&data, 16384), data.to_vec());
}

#[test]
fn every_byte_once_round_trips() {
    let data: Vec<u8> = (0..=255u8).collect();
    assert_eq!(round_trip(&data, 16384), data);
}

#[test]
fn two_blocks_round_trip() {
    let mut state: u32 = 12345;
    let mut data = Vec::new();
    for _ in 0..20000 {
        state = state.wrapping_mul(1664525).wrapping_add(1013904223);
        data.push((state >> 24) as u8);
    }
    assert_eq!(round_trip(&data, 16384), data);
    // two blocks, of which the second is the last
    let packed = compress(&data, DeflateOptions::default());
    let mut reader = BitReader::new(&packed);
    let mut out = Vec::new();
    assert_eq!(decompress_block(&mut reader, &mut out), Ok(false));
    assert_eq!(out.len(), 16384);
    assert_eq!(decompress_block(&mut reader, &mut out), Ok(true));
    assert_eq!(out, data);
}

#[test]
fn block_size_equal_to_input_gives_one_block() {
    let data: Vec<u8> = (0..100u8).collect();
    let packed = compress(&data, DeflateOptions { block_size: 100 });
    assert_eq!(packed[0] & 0b111, 0b101);
    assert_eq!(round_trip(&data, 100), data);
}

#[test]
fn small_blocks_round_trip() {
    let data: Vec<u8> = b"the quick brown fox jumps over the lazy dog".to_vec();
    for block_size in 1..50 {
        assert_eq!(round_trip(&data, block_size), data);
    }
}

#[test]
fn skewed_input_round_trips() {
    let mut data = vec![7u8; 5000];
    data.push(9);
    assert_eq!(round_trip(&data, 16384), data);
}

#[test]
fn empty_input_is_unexpected_eof() {
    assert_eq!(decompress(&[]), Err(DeflateError::UnexpectedEof));
}

#[test]
fn stored_block_is_malformed() {
    // final block, type 0
    assert_eq!(decompress(&[0b001]), Err(DeflateError::MalformedHeader));
}

#[test]
fn equal_frequencies_at_the_limit() {
    assert_eq!(package_merge(&[1; 8], 3), Ok(vec![3; 8]));
}

#[test]
fn limit_too_small() {
    assert_eq!(package_merge(&[1; 9], 3), Err(PackageMergeError::InvalidMaxLength));
}

#[test]
fn known_optimum_under_limit() {
    let freqs = [1u32, 1, 5, 7, 10, 14];
    let lengths = package_merge(&freqs, 4).unwrap();
    assert!(lengths.iter().all(|&l| l >= 1 && l <= 4));
    let cost: u32 = freqs.iter().zip(lengths.iter()).map(|(&f, &l)| f * l as u32).sum();
    assert_eq!(cost, 85);
    let kraft: u32 = lengths.iter().map(|&l| 1u32 << (4 - l)).sum();
    assert_eq!(kraft, 16);
}

#[test]
fn many_inputs_round_trip() {
    let mut state: u64 = 0x2545_f491_4f6c_dd1d;
    let mut next = move || {
        state ^= state << 13;
        state ^= state >> 7;
        state ^= state << 17;
        state
    };
    for round in 0..300 {
        let length = 1 + (next() % 600) as usize;
        let alphabet = 1 + (next() % 256) as u64;
        let skew = round % 3;
        let data: Vec<u8> = (0..length)
            .map(|_| {
                let r = next();
                let symbol = match skew {
                    0 => r % alphabet,
                    1 => (r % alphabet) * (r >> 32 & 1),
                    _ => (r % alphabet).min((r >> 20) % alphabet),
                };
                symbol as u8
            })
            .collect();
        let block_size = 1 + (next() % 700) as usize;
        assert_eq!(round_trip(&data, block_size), data, "round {}", round);
    }
}

#[test]
fn a_long_input_of_few_symbols() {
    // codes of very different lengths: the counts double from byte to byte
    let mut data = Vec::new();
    for (i, byte) in (0u8..18).enumerate() {
        data.extend(std::iter::repeat(byte).take(1 << i));
    }
    assert_eq!(round_trip(&data, 1 << 20), data);
    assert_eq!(round_trip(&data, 16384), data);
}
