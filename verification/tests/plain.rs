use deflate_codec::plain::bitio::{BitReader, BitWriter};
use deflate_codec::plain::huffman::{Huffman, Node, PrefixCode};

fn leaf(symbol: u8, freq: u32) -> Node {
    Node { symbole: Some(symbol), freq, left_node: None, right_node: None }
}

fn inner(freq: u32, left: Node, right: Node) -> Node {
    Node { symbole: None, freq, left_node: Some(Box::new(left)), right_node: Some(Box::new(right)) }
}

/// The walk that `read_symbols` makes, bit by bit.
fn walk(tree: &Node, bits: &[u8]) -> Vec<u8> {
    let mut out = Vec::new();
    let mut at = tree;
    for &bit in bits {
        if at.left_node.is_none() && at.right_node.is_none() {
            if let Some(v) = at.symbole {
                out.push(v);
                at = tree;
            }
        } else if bit == 1 {
            if let Some(next) = &at.right_node {
                at = next;
            }
        } else if let Some(next) = &at.left_node {
            at = next;
        }
    }
    out
}

fn bits_of(bytes: &[u8]) -> Vec<u8> {
    bytes.iter().flat_map(|b| (0..8).rev().map(move |i| (b >> i) & 1)).collect()
}

#[test]
fn a_byte_is_written_from_the_top() {
    let mut writer = BitWriter::new(Vec::new());
    writer.write_bits(b'A', 8);
    writer.flush_buffer();
    assert_eq!(writer.bytes(), &vec![0x41]);
}

#[test]
fn single_bits_fill_a_byte_from_the_top() {
    let mut writer = BitWriter::new(Vec::new());
    for bit in [1u8, 0, 1] {
        writer.write_bit(bit);
    }
    // only the lowest bit of the argument counts
    writer.write_bit(0xff);
    writer.write_bit(0xfe);
    assert!(writer.bytes().is_empty());
    writer.flush_buffer();
    assert_eq!(writer.bytes(), &vec![0b1011_0000]);
    writer.flush_buffer();
    assert_eq!(writer.bytes().len(), 1);
}

#[test]
fn fields_share_bytes() {
    let mut writer = BitWriter::new(vec![9]);
    writer.write_bits(0b101, 3);
    writer.write_bits(0xff, 0);
    writer.write_bits(0b1110_0001, 8);
    writer.write_bits(0b01, 2);
    assert_eq!(writer.into_bytes(), vec![9, 0b1011_1100, 0b0010_1000]);
}

#[test]
fn bits_are_read_from_the_top() {
    let bytes = [0b1011_0000u8, 0x41];
    let mut reader = BitReader::new(&bytes);
    assert_eq!(reader.read_bit(), Some(1));
    assert_eq!(reader.read_bit(), Some(0));
    assert_eq!(reader.read_bits(3), Some(0b110));
    assert_eq!(reader.read_bits(0), Some(0));
    assert_eq!(reader.read_bits(3), Some(0));
    assert_eq!(reader.read_bits(8), Some(0x41));
    assert_eq!(reader.read_bit(), None);
    assert_eq!(reader.read_bits(1), None);
}

#[test]
fn of_more_than_eight_bits_the_last_eight_are_kept() {
    let bytes = [0xab, 0xcd];
    let mut reader = BitReader::new(&bytes);
    assert_eq!(reader.read_bits(12), Some(0xbc));
    assert_eq!(reader.read_bits(5), None);
    assert_eq!(reader.read_bit(), None);
}

#[test]
fn update_appends_at_the_low_end() {
    let code = PrefixCode { code: 0b10, length: 2 };
    assert_eq!(PrefixCode::update(code, 1), PrefixCode { code: 0b101, length: 3 });
    assert_eq!(PrefixCode::update(code, 0), PrefixCode { code: 0b100, length: 3 });
    // any other number counts as a clear bit
    assert_eq!(PrefixCode::update(code, 7), PrefixCode { code: 0b100, length: 3 });
    // a ninth bit pushes the first one out
    let full = PrefixCode { code: 0b1100_0001, length: 8 };
    assert_eq!(PrefixCode::update(full, 1), PrefixCode { code: 0b1000_0011, length: 9 });
}

#[test]
fn the_bytes_of_a_text_by_their_counts() {
    let queue = Huffman {}.analyz_symboles(b"abracadabra");
    assert_eq!(
        queue,
        vec![leaf(b'c', 1), leaf(b'd', 1), leaf(b'b', 2), leaf(b'r', 2), leaf(b'a', 5)]
    );
    assert!(Huffman {}.analyz_symboles(b"").is_empty());
}

#[test]
fn the_tree_of_a_text() {
    let coder = Huffman {};
    let tree = coder.build_huffman_tree(coder.analyz_symboles(b"abracadabra")).unwrap();
    let expected = inner(
        11,
        leaf(b'a', 5),
        inner(
            6,
            inner(2, leaf(b'c', 1), leaf(b'd', 1)),
            inner(4, leaf(b'b', 2), leaf(b'r', 2)),
        ),
    );
    assert_eq!(tree, expected);
    assert_eq!(coder.build_huffman_tree(Vec::new()), None);
    assert_eq!(coder.build_huffman_tree(vec![leaf(7, 3)]), Some(leaf(7, 3)));
}

#[test]
fn the_codes_of_a_text() {
    let lookup = Huffman {}.lookup_for(b"abracadabra");
    assert_eq!(lookup.len(), 256);
    assert_eq!(lookup[b'a' as usize], PrefixCode { code: 0b0, length: 1 });
    assert_eq!(lookup[b'c' as usize], PrefixCode { code: 0b100, length: 3 });
    assert_eq!(lookup[b'd' as usize], PrefixCode { code: 0b101, length: 3 });
    assert_eq!(lookup[b'b' as usize], PrefixCode { code: 0b110, length: 3 });
    assert_eq!(lookup[b'r' as usize], PrefixCode { code: 0b111, length: 3 });
    assert_eq!(lookup[b'z' as usize], PrefixCode { code: 0, length: 0 });
    // a byte alone gets no bits
    let alone = Huffman {}.lookup_for(b"xxxx");
    assert!(alone.iter().all(|c| c.length == 0));
}

#[test]
fn the_codes_below_a_node() {
    let coder = Huffman {};
    let tree = inner(0, leaf(1, 0), inner(0, leaf(2, 0), leaf(3, 0)));
    let mut lookup = vec![PrefixCode { code: 0, length: 0 }; 256];
    coder.build_huffman_lookup(&tree, PrefixCode { code: 0b1, length: 1 }, &mut lookup);
    assert_eq!(lookup[1], PrefixCode { code: 0b10, length: 2 });
    assert_eq!(lookup[2], PrefixCode { code: 0b110, length: 3 });
    assert_eq!(lookup[3], PrefixCode { code: 0b111, length: 3 });
    assert_eq!(lookup[0], PrefixCode { code: 0, length: 0 });
}

#[test]
fn a_leaf_is_put_at_the_end_of_its_path() {
    let coder = Huffman {};
    let mut root = Node { symbole: None, freq: 0, left_node: None, right_node: None };
    coder.insert_leaf(&mut root, PrefixCode { code: 0b10, length: 2 }, 65);
    let bare = |left, right| Node { symbole: None, freq: 0, left_node: left, right_node: right };
    assert_eq!(root, bare(None, Some(Box::new(bare(Some(Box::new(leaf(65, 0))), None)))));
    coder.insert_leaf(&mut root, PrefixCode { code: 0b0, length: 1 }, 66);
    assert_eq!(
        root,
        bare(
            Some(Box::new(leaf(66, 0))),
            Some(Box::new(bare(Some(Box::new(leaf(65, 0))), None)))
        )
    );
    // a code without bits puts the leaf in the place of the root
    coder.insert_leaf(&mut root, PrefixCode { code: 0, length: 0 }, 67);
    assert_eq!(root, leaf(67, 0));
}

#[test]
fn a_coded_text() {
    let coder = Huffman {};
    let text = b"abracadabra";
    let lookup = coder.lookup_for(text);
    let coded = coder.encode_with(&lookup, text);
    // 256 lengths, 13 bits of codes, 23 bits of text
    assert_eq!(coded.len(), (256 * 8 + 13 + 23 + 7) / 8);

    let mut reader = BitReader::new(&coded);
    let table = coder.read_lookup(&mut reader);
    assert_eq!(table, lookup);
    let tree = coder.lookup_tree(&table);
    let symbols = coder.read_symbols(&tree, &mut reader);
    assert_eq!(reader.read_bit(), None);

    let text_bits = &bits_of(&coded)[256 * 8 + 13..];
    assert_eq!(text_bits[..8], [0, 1, 1, 0, 1, 1, 1, 0]);
    assert_eq!(symbols, walk(&tree, text_bits));
    // the bit that is read at a leaf is dropped
    assert_eq!(symbols, b"addadbba".to_vec());
}

#[test]
fn a_table_that_is_cut_short() {
    let coder = Huffman {};
    // one entry of length 2 and code 11, then the start of another
    let bytes = [0b0000_0010, 0b1100_0000];
    let mut reader = BitReader::new(&bytes);
    let table = coder.read_lookup(&mut reader);
    assert_eq!(table[0], PrefixCode { code: 0b11, length: 2 });
    assert!(table[1..].iter().all(|c| c.length == 0 && c.code == 0));
    assert_eq!(reader.read_bit(), None);
    let tree = coder.lookup_tree(&table);
    assert_eq!(walk(&tree, &[1, 1, 0, 1, 1, 1]), vec![0, 0]);
}

#[test]
fn coding_and_decoding_in_one_step() {
    let coder = Huffman {};
    let coded = coder.encode(b"abracadabra").unwrap();
    let lookup = coder.lookup_for(b"abracadabra");
    assert_eq!(coded, coder.encode_with(&lookup, b"abracadabra"));
    assert_eq!(coder.decode(&coded), Some(b"addadbba".to_vec()));
    assert_eq!(coder.decode(&[]), Some(Vec::new()));
}

#[test]
fn codes_of_more_than_eight_bits_are_not_written() {
    // counts 1, 1, 2, 4, ..., 256 make a tree that is 10 links deep
    let mut text = Vec::new();
    for (i, byte) in (b'a'..=b'j').enumerate() {
        let count = if i == 0 { 1 } else { 1usize << (i - 1) };
        text.extend(std::iter::repeat(byte).take(count));
    }
    let coder = Huffman {};
    let lookup = coder.lookup_for(&text);
    assert_eq!(lookup[b'a' as usize].length, 9);
    assert_eq!(lookup[b'j' as usize], PrefixCode { code: 0, length: 1 });
    assert_eq!(coder.encode(&text), None);
    // a table with a length of 9
    let mut data = vec![9u8, 0xff, 0xff];
    data.extend_from_slice(&[0; 300]);
    assert_eq!(coder.decode(&data), None);
}
