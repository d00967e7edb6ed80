use deflate_codec::deflate::{compress as deflate, DeflateOptions};
use deflate_codec::format::DeflateError;
use deflate_codec::gzip::{
    check_trailer, compress, compute_crc_and_size, decompress, frame, payload_start, GzipError,
};

#[test]
fn checksum_of_the_check_string() {
    assert_eq!(compute_crc_and_size(b"123456789"), (0xcbf4_3926, 9));
    assert_eq!(compute_crc_and_size(b""), (0, 0));
}

#[test]
fn a_member_frames_its_payload() {
    let member = frame(b"a.txt", &[0xaa, 0xbb], 0x0403_0201, 0x0807_0605);
    assert_eq!(
        member,
        vec![
            0x1f, 0x8b, 8, 8, 0, 0, 0, 0, 4, 255, b'a', b'.', b't', b'x', b't', 0, 0xaa, 0xbb, 1,
            2, 3, 4, 5, 6, 7, 8
        ]
    );
}

#[test]
fn compress_frames_the_deflate_stream() {
    let input = b"a small text, a small text";
    let member = compress(input, b"text");
    let payload = deflate(input, DeflateOptions::default());
    let (crc, size) = compute_crc_and_size(input);
    assert_eq!(member, frame(b"text", &payload, crc, size));
    assert_eq!(size, 26);
}

#[test]
fn members_round_trip() {
    let mut data = Vec::new();
    let mut state: u32 = 3;
    for _ in 0..40000 {
        state = state.wrapping_mul(1664525).wrapping_add(1013904223);
        data.push((state >> 28) as u8 * 3);
    }
    let member = compress(&data, b"numbers.bin");
    assert_eq!(decompress(&member), Ok(data));
}

#[test]
fn the_payload_starts_after_the_optional_fields() {
    let fixed = [0x1f, 0x8b, 8];
    let rest = [0, 0, 0, 0, 0, 255];
    let member = |flags: u8, fields: &[u8]| {
        let mut m = fixed.to_vec();
        m.push(flags);
        m.extend_from_slice(&rest);
        m.extend_from_slice(fields);
        m.extend_from_slice(&[0xee; 5]);
        m
    };
    assert_eq!(payload_start(&member(0, &[])), Ok(10));
    // a name
    assert_eq!(payload_start(&member(8, b"name\0")), Ok(15));
    // an extra field of 3 bytes
    assert_eq!(payload_start(&member(4, &[3, 0, 9, 9, 9])), Ok(15));
    // a comment
    assert_eq!(payload_start(&member(16, b"hi\0")), Ok(13));
    // a header checksum
    assert_eq!(payload_start(&member(2, &[1, 2])), Ok(12));
    // all of them, in their order
    assert_eq!(payload_start(&member(30, &[1, 0, 7, b'n', 0, b'c', 0, 5, 6])), Ok(19));
}

#[test]
fn a_header_that_is_cut_short() {
    assert_eq!(payload_start(&[0x1f, 0x8b, 8, 0, 0, 0, 0, 0, 0]), Err(GzipError::UnexpectedEof));
    assert_eq!(payload_start(&[]), Err(GzipError::UnexpectedEof));
    // the extra field's length is missing
    assert_eq!(payload_start(&[0x1f, 0x8b, 8, 4, 0, 0, 0, 0, 0, 255, 1]), Err(GzipError::UnexpectedEof));
    // the extra field is longer than the data
    assert_eq!(
        payload_start(&[0x1f, 0x8b, 8, 4, 0, 0, 0, 0, 0, 255, 2, 0, 1]),
        Err(GzipError::UnexpectedEof)
    );
    // the header checksum is missing
    assert_eq!(
        payload_start(&[0x1f, 0x8b, 8, 2, 0, 0, 0, 0, 0, 255, 1]),
        Err(GzipError::UnexpectedEof)
    );
    // a name without its end reaches to the end of the data
    assert_eq!(payload_start(&[0x1f, 0x8b, 8, 8, 0, 0, 0, 0, 0, 255, b'x', b'y']), Ok(12));
}

#[test]
fn other_data_is_not_gzip() {
    assert_eq!(payload_start(&[0x1f, 0x8c, 8, 0, 0, 0, 0, 0, 0, 255]), Err(GzipError::BadMagic));
    assert_eq!(decompress(b"PK\x03\x04 not gzip at all"), Err(GzipError::BadMagic));
}

#[test]
fn the_trailer_is_held_against_the_bytes() {
    let trailer = [0x26, 0x39, 0xf4, 0xcb, 9, 0, 0, 0, 77];
    assert_eq!(check_trailer(&trailer, 0xcbf4_3926, 9), Ok(()));
    assert_eq!(check_trailer(&trailer, 0xcbf4_3927, 9), Err(GzipError::BadChecksum));
    assert_eq!(check_trailer(&trailer, 0xcbf4_3926, 10), Err(GzipError::BadSize));
    assert_eq!(check_trailer(&trailer[..7], 0xcbf4_3926, 9), Err(GzipError::UnexpectedEof));
    // the size counts modulo 2^32
    assert_eq!(check_trailer(&trailer, 0xcbf4_3926, 9 + (1usize << 32)), Ok(()));
}

#[test]
fn a_damaged_member_is_turned_down() {
    let member = compress(b"what is written here", b"f");
    let n = member.len();
    let mut wrong_sum = member.clone();
    wrong_sum[n - 8] ^= 1;
    assert_eq!(decompress(&wrong_sum), Err(GzipError::BadChecksum));
    let mut wrong_size = member.clone();
    wrong_size[n - 1] ^= 0x80;
    assert_eq!(decompress(&wrong_size), Err(GzipError::BadSize));
    assert_eq!(decompress(&member[..n - 1]), Err(GzipError::UnexpectedEof));
    assert_eq!(
        decompress(&member[..12]),
        Err(GzipError::Payload(DeflateError::UnexpectedEof))
    );
    let mut stored = member.clone();
    stored[12] &= !0b110;
    assert_eq!(decompress(&stored), Err(GzipError::Payload(DeflateError::MalformedHeader)));
}
