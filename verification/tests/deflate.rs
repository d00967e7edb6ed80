use deflate_codec::bitio::{BitReader, BitWriter};
use deflate_codec::deflate::{
    compress, compress_block, compress_block_gen_symbols, compress_huffman_table_gen_symbols,
    decompress, decompress_block, read_huffman_table, write_huffman_length_symbols,
    write_huffman_tables, Block, BlockCompressionInfo, DeflateOptions,
};
use deflate_codec::format::DeflateError;
use deflate_codec::huffman::HuffmanTable;

fn table_with(size: usize, lengths: &[(usize, u8)]) -> HuffmanTable {
    let mut all = vec![0u8; size];
    for &(symbol, length) in lengths {
        all[symbol] = length;
    }
    HuffmanTable::from_lengths(&all)
}

/// A block with the given literal/length code and payload symbols, written
/// as the encoder writes its blocks.
fn block_with(lengths: &[(usize, u8)], size: usize, payload: &[usize], last: bool) -> Vec<u8> {
    let literal = table_with(size, lengths);
    let distance = HuffmanTable::from_lengths(&[0]);
    let info = BlockCompressionInfo { num_literal_codes: size, num_distance_codes: 1 };
    let mut writer = BitWriter::new(Vec::new());
    writer.write_bits(if last { 5 } else { 4 }, 3);
    write_huffman_tables(&mut writer, &literal, &distance, &info);
    for &symbol in payload {
        let code = literal.code(symbol);
        writer.write_bits(code.code as u64, code.length as usize);
    }
    writer.flush();
    writer.into_bytes()
}

#[test]
fn default_block_size() {
    assert_eq!(DeflateOptions::default().block_size, 16384);
}

#[test]
fn a_hand_made_block_is_read() {
    let bytes = block_with(&[(65, 1), (66, 2), (256, 2)], 257, &[65, 66, 65, 256], true);
    assert_eq!(decompress(&bytes), Ok((vec![65, 66, 65], bytes.len())));
}

#[test]
fn bytes_after_the_stream_are_left_alone() {
    let mut bytes = compress(b"hello hello", DeflateOptions::default());
    let end = bytes.len();
    bytes.extend_from_slice(&[1, 2, 3, 4, 5, 6, 7, 8, 9, 10, 11, 12]);
    assert_eq!(decompress(&bytes), Ok((b"hello hello".to_vec(), end)));
}

#[test]
fn length_codes_are_not_supported() {
    let bytes = block_with(&[(65, 1), (256, 2), (257, 2)], 258, &[65, 257, 256], true);
    assert_eq!(decompress(&bytes), Err(DeflateError::Unsupported));
}

#[test]
fn a_cut_stream_ends_too_early() {
    let bytes = compress(b"some bytes to compress, some bytes", DeflateOptions::default());
    for keep in 0..bytes.len() {
        assert_eq!(decompress(&bytes[..keep]), Err(DeflateError::UnexpectedEof), "{}", keep);
    }
}

#[test]
fn a_block_that_is_not_the_last_needs_another() {
    let bytes = block_with(&[(65, 1), (256, 1)], 257, &[65, 256], false);
    assert_eq!(decompress(&bytes), Err(DeflateError::UnexpectedEof));
    let mut two = bytes.clone();
    // the first block ends inside its last byte; a second one is tried there
    two.push(0b0000_0001);
    assert!(decompress(&two).is_err());
}

#[test]
fn other_block_types_are_malformed() {
    assert_eq!(decompress(&[0b001, 0, 0]), Err(DeflateError::MalformedHeader));
    assert_eq!(decompress(&[0b011, 0, 0]), Err(DeflateError::MalformedHeader));
    assert_eq!(decompress(&[0b111, 0, 0]), Err(DeflateError::MalformedHeader));
}

#[test]
fn too_many_codes_are_malformed() {
    // 30 + 257 literal/length codes
    let mut writer = BitWriter::new(Vec::new());
    writer.write_bits(5, 3);
    writer.write_bits(30, 5);
    writer.write_bits(0, 5);
    writer.write_bits(0, 4);
    writer.flush();
    assert_eq!(decompress(&writer.into_bytes()), Err(DeflateError::MalformedHeader));
    // 31 + 1 distance codes
    let mut writer = BitWriter::new(Vec::new());
    writer.write_bits(5, 3);
    writer.write_bits(0, 5);
    writer.write_bits(31, 5);
    writer.write_bits(0, 4);
    writer.flush();
    assert_eq!(decompress(&writer.into_bytes()), Err(DeflateError::MalformedHeader));
}

/// The start of a block whose code-length code gives the symbols 16, 17, 18
/// and 0 the given lengths.
fn header_with(lengths: [u64; 4]) -> BitWriter {
    let mut writer = BitWriter::new(Vec::new());
    writer.write_bits(5, 3);
    writer.write_bits(0, 5);
    writer.write_bits(0, 5);
    writer.write_bits(0, 4);
    for length in lengths {
        writer.write_bits(length, 3);
    }
    writer
}

#[test]
fn a_code_length_code_with_too_many_codes_is_malformed() {
    let mut writer = header_with([1, 1, 1, 1]);
    writer.write_bits(0, 64);
    writer.flush();
    assert_eq!(decompress(&writer.into_bytes()), Err(DeflateError::MalformedHeader));
}

#[test]
fn a_repetition_of_nothing_is_malformed() {
    // 0 has the code `0`, and 16 the code `1`
    let mut writer = header_with([1, 0, 0, 1]);
    writer.write_bits(1, 1);
    writer.write_bits(0, 64);
    writer.flush();
    assert_eq!(decompress(&writer.into_bytes()), Err(DeflateError::MalformedHeader));
}

#[test]
fn a_run_past_the_declared_lengths_is_malformed() {
    // 0 has the code `0`, and 18 the code `1`: two runs of 138 are too many for 257
    let mut writer = header_with([0, 0, 1, 1]);
    writer.write_bits(1, 1);
    writer.write_bits(127, 7);
    writer.write_bits(1, 1);
    writer.write_bits(127, 7);
    writer.write_bits(0, 64);
    writer.flush();
    assert_eq!(decompress(&writer.into_bytes()), Err(DeflateError::MalformedHeader));
}

#[test]
fn a_header_without_codes_has_a_payload_without_symbols() {
    // 257 lengths of 0, and one for the distance code
    let mut writer = header_with([0, 0, 1, 1]);
    writer.write_bits(1, 1);
    writer.write_bits(127, 7);
    writer.write_bits(1, 1);
    writer.write_bits(119 - 11, 7);
    writer.write_bits(0, 1);
    writer.write_bits(0, 8);
    writer.flush();
    assert_eq!(decompress(&writer.into_bytes()), Err(DeflateError::MalformedHeader));
}

#[test]
fn the_header_is_read_back() {
    let bytes = block_with(&[(0, 3), (1, 3), (2, 2), (200, 2), (256, 2)], 260, &[], true);
    let mut reader = BitReader::new(&bytes);
    assert_eq!(reader.read_bits(3), Ok(5));
    let table = read_huffman_table(&mut reader).unwrap();
    let lengths: Vec<u8> = table.codes.iter().map(|c| c.length).collect();
    let mut expected = vec![0u8; 260];
    expected[0] = 3;
    expected[1] = 3;
    expected[2] = 2;
    expected[200] = 2;
    expected[256] = 2;
    assert_eq!(lengths, expected);
    let made = table_with(260, &[(0, 3), (1, 3), (2, 2), (200, 2), (256, 2)]);
    for symbol in 0..260 {
        assert_eq!(table.code(symbol).code, made.code(symbol).code);
    }
}

#[test]
fn one_block_at_a_time() {
    let input = b"abcabcabcabc";
    let mut writer = BitWriter::new(Vec::new());
    let mut block = Block::default();
    let mut position = 0;
    let options = DeflateOptions { block_size: 5 };
    assert!(!compress_block(input, &mut position, &mut writer, &mut block, &options));
    assert_eq!(position, 5);
    assert!(!compress_block(input, &mut position, &mut writer, &mut block, &options));
    assert_eq!(position, 10);
    assert!(compress_block(input, &mut position, &mut writer, &mut block, &options));
    assert_eq!(position, 12);
    writer.flush();
    let bytes = writer.into_bytes();
    assert_eq!(bytes, compress(input, DeflateOptions { block_size: 5 }));

    let mut reader = BitReader::new(&bytes);
    let mut out = Vec::new();
    assert_eq!(decompress_block(&mut reader, &mut out), Ok(false));
    assert_eq!(out, b"abcab".to_vec());
    assert_eq!(decompress_block(&mut reader, &mut out), Ok(false));
    assert_eq!(decompress_block(&mut reader, &mut out), Ok(true));
    assert_eq!(out, input.to_vec());
}

#[test]
fn symbols_of_a_block() {
    let mut block = Block::default();
    let info = compress_block_gen_symbols(b"aab", &mut block);
    assert_eq!(info.num_literal_codes, 257);
    assert_eq!(info.num_distance_codes, 1);
}

#[test]
fn run_length_coding_of_lengths() {
    let mut freqs = vec![0u32; 19];
    let mut lengths = Vec::new();
    lengths.extend_from_slice(&[0; 2]); // two single zeros
    lengths.extend_from_slice(&[5; 3]); // three single fives
    lengths.extend_from_slice(&[0; 3]); // 17 with 0
    lengths.extend_from_slice(&[7; 4]); // 7, 16 with 0
    lengths.extend_from_slice(&[0; 10]); // 17 with 7
    lengths.extend_from_slice(&[4; 9]); // 4, 16 with 3; 4 4
    lengths.extend_from_slice(&[0; 11]); // 18 with 0
    lengths.extend_from_slice(&[1; 1]);
    lengths.extend_from_slice(&[0; 140]); // 18 with 127; 0 0
    let table = HuffmanTable::from_lengths(&lengths);
    let symbols = compress_huffman_table_gen_symbols(&table, &mut freqs);
    assert_eq!(
        symbols,
        vec![0, 0, 5, 5, 5, 17, 0, 7, 16, 0, 17, 7, 4, 16, 3, 4, 4, 18, 0, 1, 18, 127, 0, 0]
    );
    let mut expected = vec![0u32; 19];
    expected[0] = 4;
    expected[1] = 1;
    expected[4] = 3;
    expected[5] = 3;
    expected[7] = 1;
    expected[16] = 2;
    expected[17] = 2;
    expected[18] = 2;
    assert_eq!(freqs, expected);
}

#[test]
fn run_length_coding_of_an_empty_table() {
    let mut freqs = vec![3u32; 19];
    let table = HuffmanTable::from_lengths(&[]);
    assert_eq!(compress_huffman_table_gen_symbols(&table, &mut freqs), vec![0]);
    assert_eq!(freqs[0], 4);
    assert_eq!(freqs[1], 3);
}

#[test]
fn run_length_symbols_with_their_arguments() {
    // every symbol has a code of 5 bits; the symbol's number mirrored
    let table = HuffmanTable::from_lengths(&[5; 19]);
    let mut writer = BitWriter::new(Vec::new());
    write_huffman_length_symbols(&mut writer, &vec![3, 16, 2, 17, 5, 18, 100], &table);
    writer.flush();
    let bytes = writer.into_bytes();
    let mut reader = BitReader::new(&bytes);
    assert_eq!(reader.read_bits(5), Ok(0b11000));
    assert_eq!(reader.read_bits(5), Ok(0b00001));
    assert_eq!(reader.read_bits(2), Ok(2));
    assert_eq!(reader.read_bits(5), Ok(0b10001));
    assert_eq!(reader.read_bits(3), Ok(5));
    assert_eq!(reader.read_bits(5), Ok(0b01001));
    assert_eq!(reader.read_bits(7), Ok(100));
}

#[test]
fn the_smallest_stream() {
    // "A": two symbols of one bit each
    let bytes = compress(b"A", DeflateOptions::default());
    let mut reader = BitReader::new(&bytes);
    assert_eq!(reader.read_bits(1), Ok(1)); // last block
    assert_eq!(reader.read_bits(2), Ok(2)); // dynamic codes
    assert_eq!(reader.read_bits(5), Ok(0)); // 257 literal/length codes
    assert_eq!(reader.read_bits(5), Ok(0)); // 1 distance code
    let table = {
        let mut again = BitReader::new(&bytes);
        again.read_bits(3).unwrap();
        read_huffman_table(&mut again).unwrap()
    };
    for symbol in 0..257 {
        let expected = if symbol == 65 || symbol == 256 { 1 } else { 0 };
        assert_eq!(table.code(symbol).length, expected);
    }
    assert_eq!(table.code(65).code, 0);
    assert_eq!(table.code(256).code, 1);
}

#[test]
fn four_equal_bytes_take_four_bits() {
    let one = compress(b"A", DeflateOptions::default());
    let four = compress(b"AAAA", DeflateOptions::default());
    // the headers are the same; the payload grows by three bits
    assert!(four.len() <= one.len() + 1);
    assert_eq!(decompress(&four), Ok((b"AAAA".to_vec(), four.len())));
}

#[test]
fn every_byte_once_gets_codes_of_eight_and_nine_bits() {
    let data: Vec<u8> = (0..=255u8).collect();
    let bytes = compress(&data, DeflateOptions::default());
    let mut reader = BitReader::new(&bytes);
    reader.read_bits(3).unwrap();
    let table = read_huffman_table(&mut reader).unwrap();
    assert_eq!(table.codes.len(), 257);
    assert!(table.codes.iter().all(|c| c.length == 8 || c.length == 9));
    assert_eq!(table.codes.iter().filter(|c| c.length == 9).count(), 2);
}
