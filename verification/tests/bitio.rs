use deflate_codec::bitio::{BitReader, BitWriter, UnexpectedEof};

#[test]
fn writing_no_bits_changes_nothing() {
    let mut writer = BitWriter::new(Vec::new());
    writer.write_bits(0b101, 3);
    writer.write_bits(0, 0);
    writer.write_bits(0b11, 2);
    writer.flush();
    assert_eq!(writer.into_bytes(), vec![0b11101]);
}

#[test]
fn a_full_word_is_emitted_at_once() {
    let mut writer = BitWriter::new(Vec::new());
    writer.write_bits(0x0123_4567_89ab_cdef, 64);
    assert_eq!(
        writer.bytes(),
        &vec![0xef, 0xcd, 0xab, 0x89, 0x67, 0x45, 0x23, 0x01]
    );
    // nothing is left pending: flushing adds no byte
    writer.flush();
    assert_eq!(writer.bytes().len(), 8);
}

#[test]
fn fields_that_meet_the_word_boundary() {
    let mut writer = BitWriter::new(Vec::new());
    writer.write_bits(0b101, 3);
    writer.write_bits(0x1fff_ffff_ffff_ffff, 61);
    assert_eq!(writer.bytes().len(), 8);
    assert_eq!(writer.bytes()[0], 0xfd);
    writer.flush();
    assert_eq!(writer.bytes().len(), 8);
}

#[test]
fn fields_that_cross_the_word_boundary() {
    let mut writer = BitWriter::new(Vec::new());
    writer.write_bits(0x3ff, 10);
    writer.write_bits(0xffff_ffff_ffff_fffe, 64);
    assert_eq!(writer.bytes().len(), 8);
    writer.flush();
    let bytes = writer.into_bytes();
    assert_eq!(bytes.len(), 10);
    assert_eq!(bytes[0], 0xff);
    assert_eq!(bytes[1], 0b1111_1011);
    assert_eq!(bytes[9], 0b11);
}

#[test]
fn flush_pads_with_clear_bits() {
    let mut writer = BitWriter::new(vec![0xaa]);
    writer.write_bits(0b1, 1);
    writer.flush();
    assert_eq!(writer.into_bytes(), vec![0xaa, 0x01]);
}

#[test]
fn bits_come_out_least_significant_first() {
    let bytes = [0b1010_0110u8, 0xff];
    let mut reader = BitReader::new(&bytes);
    assert_eq!(reader.read_bits(1), Ok(0));
    assert_eq!(reader.read_bits(2), Ok(0b11));
    assert_eq!(reader.read_bits(5), Ok(0b10100));
    assert_eq!(reader.read_bits(8), Ok(0xff));
    assert_eq!(reader.read_bits(1), Err(UnexpectedEof));
    assert_eq!(reader.read_bits(0), Ok(0));
}

#[test]
fn reading_a_full_word() {
    let bytes = [0xef, 0xcd, 0xab, 0x89, 0x67, 0x45, 0x23, 0x01, 0x5a];
    let mut reader = BitReader::new(&bytes);
    assert_eq!(reader.read_bits(64), Ok(0x0123_4567_89ab_cdef));
    assert_eq!(reader.read_bits(8), Ok(0x5a));
}

#[test]
fn reading_past_the_end_fails_and_keeps_the_bits() {
    let bytes = [0x0f];
    let mut reader = BitReader::new(&bytes);
    assert_eq!(reader.read_bits(4), Ok(0xf));
    assert_eq!(reader.read_bits(5), Err(UnexpectedEof));
    assert_eq!(reader.read_bits(4), Ok(0));
}

#[test]
fn unread_bytes_are_put_back() {
    let bytes = [0xff, 0x01, 0x02, 0x03, 0x04, 0x05, 0x06, 0x07, 0x08, 0x09];
    let mut reader = BitReader::new(&bytes);
    assert_eq!(reader.read_bits(3), Ok(0b111));
    // eight bytes were pulled; seven of them are whole and go back
    assert_eq!(reader.position(), 8);
    reader.put_back_extra();
    assert_eq!(reader.position(), 1);
    assert_eq!(reader.read_bits(8), Ok(0x01));
}

#[test]
fn put_back_after_whole_bytes() {
    let bytes = [0x11, 0x22, 0x33];
    let mut reader = BitReader::new(&bytes);
    assert_eq!(reader.read_bits(16), Ok(0x2211));
    reader.put_back_extra();
    assert_eq!(reader.position(), 2);
}

#[test]
fn written_fields_are_read_back() {
    let mut fields: Vec<(u64, usize)> = Vec::new();
    let mut state: u64 = 0x9e37_79b9_7f4a_7c15;
    for i in 0..5000 {
        state = state.wrapping_mul(6364136223846793005).wrapping_add(1442695040888963407);
        let length = (i * 7 + (state >> 60) as usize) % 65;
        let data = if length == 64 { state } else { state & ((1u64 << length) - 1) };
        fields.push((data, length));
    }
    let mut writer = BitWriter::new(Vec::new());
    for &(data, length) in &fields {
        writer.write_bits(data, length);
    }
    writer.flush();
    let bytes = writer.into_bytes();
    let total: usize = fields.iter().map(|f| f.1).sum();
    assert_eq!(bytes.len(), (total + 7) / 8);
    let mut reader = BitReader::new(&bytes);
    for &(data, length) in &fields {
        assert_eq!(reader.read_bits(length), Ok(data));
    }
}
