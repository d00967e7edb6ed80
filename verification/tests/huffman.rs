use deflate_codec::huffman::{HuffmanTable, HuffmanTree, PrefixCode};
use deflate_codec::package_merge::PackageMergeError;

fn codes_of(table: &HuffmanTable) -> Vec<(u32, u8)> {
    table.codes.iter().map(|c| (c.code, c.length)).collect()
}

/// Walks the tree along the bits of `code` and says where that ends.
fn follow(tree: &HuffmanTree, code: &PrefixCode) -> Option<(usize, bool)> {
    let mut iter = tree.create_walk_iter();
    for i in 0..code.length {
        iter = tree.walk(iter, (code.code >> i) & 1 == 1)?;
    }
    Some((iter.idx, iter.leaf))
}

#[test]
fn canonical_codes_of_a_textbook_alphabet() {
    // lengths 3 3 3 3 3 2 4 4 stand for the codes
    // 010 011 100 101 110 00 1110 1111, which are kept with their bits mirrored
    let table = HuffmanTable::from_lengths(&[3, 3, 3, 3, 3, 2, 4, 4]);
    assert_eq!(
        codes_of(&table),
        vec![(0b010, 3), (0b110, 3), (0b001, 3), (0b101, 3), (0b011, 3), (0b00, 2), (0b0111, 4), (0b1111, 4)]
    );
}

#[test]
fn symbols_without_a_code_are_passed_over() {
    let table = HuffmanTable::from_lengths(&[0, 2, 0, 1, 0, 2]);
    assert_eq!(codes_of(&table), vec![(0, 0), (0b01, 2), (0, 0), (0b0, 1), (0, 0), (0b11, 2)]);
    assert_eq!(table.code(3).length, 1);
    assert_eq!(table.code(5).code, 0b11);
}

#[test]
fn no_lengths_no_codes() {
    let table = HuffmanTable::from_lengths(&[]);
    assert!(table.codes.is_empty());
}

#[test]
fn canonicalize_twice_is_canonicalize_once() {
    let mut table = HuffmanTable {
        codes: vec![
            PrefixCode { code: 99, length: 2 },
            PrefixCode { code: 1, length: 3 },
            PrefixCode { code: 7, length: 0 },
            PrefixCode { code: 0, length: 3 },
            PrefixCode { code: 5, length: 1 },
        ],
    };
    table.canonicalize();
    let once = codes_of(&table);
    assert_eq!(once, vec![(0b01, 2), (0b011, 3), (0, 0), (0b111, 3), (0b0, 1)]);
    table.canonicalize();
    assert_eq!(codes_of(&table), once);
}

#[test]
fn update_appends_a_bit() {
    let code = PrefixCode { code: 0b01, length: 2 };
    let more = PrefixCode::update(code, true);
    assert_eq!((more.code, more.length), (0b101, 3));
    let more = PrefixCode::update(more, false);
    assert_eq!((more.code, more.length), (0b0101, 4));
    let first = PrefixCode::update(PrefixCode::default(), true);
    assert_eq!((first.code, first.length), (1, 1));
}

#[test]
fn every_code_leads_to_its_leaf() {
    let lengths = [3u8, 3, 3, 3, 3, 2, 4, 4];
    let table = HuffmanTable::from_lengths(&lengths);
    let tree = HuffmanTree::from(&table).unwrap();
    for (symbol, code) in table.codes.iter().enumerate() {
        assert_eq!(follow(&tree, code), Some((symbol, true)));
    }
    // the root is the last of 2 n - 1 nodes
    assert_eq!(tree.create_walk_iter().idx, 14);
    assert!(!tree.create_walk_iter().leaf);
}

#[test]
fn walking_builds_the_code() {
    let table = HuffmanTable::from_lengths(&[2, 1, 2]);
    let tree = HuffmanTree::from(&table).unwrap();
    let start = tree.create_walk_iter();
    let one = tree.walk(start, true).unwrap();
    assert!(!one.leaf);
    let two = tree.walk(one, false).unwrap();
    assert!(two.leaf);
    assert_eq!(two.idx, 0);
    assert_eq!((two.code.code, two.code.length), (0b01, 2));
    // a leaf has no children
    assert!(tree.walk(two, false).is_none());
    assert!(tree.walk(two, true).is_none());
}

#[test]
fn a_path_without_a_code_ends_nowhere() {
    // one code, `0`: there is nothing on the side of a set bit
    let table = HuffmanTable::from_lengths(&[0, 1, 0]);
    let tree = HuffmanTree::from(&table).unwrap();
    let start = tree.create_walk_iter();
    assert!(tree.walk(start, true).is_none());
    let leaf = tree.walk(start, false).unwrap();
    assert_eq!((leaf.idx, leaf.leaf), (1, true));
}

#[test]
fn codes_that_start_each_other_have_no_tree() {
    // three codes of one bit cannot all differ
    assert!(HuffmanTree::from(&HuffmanTable::from_lengths(&[1, 1, 1])).is_none());
    let clash = HuffmanTable {
        codes: vec![PrefixCode { code: 0b0, length: 1 }, PrefixCode { code: 0b10, length: 2 }],
    };
    assert!(HuffmanTree::from(&clash).is_none());
    let twice = HuffmanTable {
        codes: vec![PrefixCode { code: 0b1, length: 1 }, PrefixCode { code: 0b1, length: 1 }],
    };
    assert!(HuffmanTree::from(&twice).is_none());
}

#[test]
fn a_tree_with_too_many_inner_nodes_does_not_fit() {
    // 000, 001, 010 need four inner nodes; three symbols leave room for two
    assert!(HuffmanTree::from(&HuffmanTable::from_lengths(&[3, 3, 3])).is_none());
    // with symbols enough the same codes fit
    let table = HuffmanTable::from_lengths(&[3, 3, 3, 0, 0]);
    let tree = HuffmanTree::from(&table).unwrap();
    for symbol in 0..3 {
        assert_eq!(follow(&tree, table.code(symbol)), Some((symbol, true)));
    }
    // a single symbol has no room for a root above its leaf
    assert!(HuffmanTree::from(&HuffmanTable::from_lengths(&[1])).is_none());
    assert!(HuffmanTree::from(&HuffmanTable::from_lengths(&[0])).is_some());
}

#[test]
fn huffman_tree_of_a_textbook_alphabet() {
    let freqs = [5u32, 9, 12, 13, 16, 45];
    let tree = HuffmanTree::build(&freqs);
    let table = HuffmanTable::from(&tree);
    let lengths: Vec<u8> = table.codes.iter().map(|c| c.length).collect();
    assert_eq!(lengths, vec![4, 4, 3, 3, 3, 1]);
    for (symbol, code) in table.codes.iter().enumerate() {
        assert_eq!(follow(&tree, code), Some((symbol, true)));
    }
    // the lightest two hang on the first inner node, the lighter on the left
    assert_eq!((table.code(0).code, table.code(1).code), (0b0011, 0b1011));
    assert_eq!(table.code(5).code, 0);
}

#[test]
fn equal_weights_merge_in_order_of_index() {
    let tree = HuffmanTree::build(&[1, 1, 1, 1]);
    let table = HuffmanTable::from(&tree);
    assert_eq!(codes_of(&table), vec![(0b00, 2), (0b10, 2), (0b01, 2), (0b11, 2)]);
}

#[test]
fn a_single_symbol_in_use_hangs_left_of_a_root() {
    let tree = HuffmanTree::build(&[0, 7, 0]);
    let start = tree.create_walk_iter();
    assert_eq!(start.idx, 3);
    let leaf = tree.walk(start, false).unwrap();
    assert_eq!((leaf.idx, leaf.leaf), (1, true));
    assert!(tree.walk(start, true).is_none());
    let table = HuffmanTable::from(&tree);
    assert_eq!(codes_of(&table), vec![(0, 0), (0, 1), (0, 0)]);
}

#[test]
fn symbols_out_of_use_hang_nowhere() {
    let tree = HuffmanTree::build(&[3, 0, 5, 0]);
    let table = HuffmanTable::from(&tree);
    assert_eq!(codes_of(&table), vec![(0, 1), (0, 0), (1, 1), (0, 0)]);
    let none = HuffmanTree::build(&[0, 0]);
    let table = HuffmanTable::from(&none);
    assert_eq!(codes_of(&table), vec![(0, 0), (0, 0)]);
}

#[test]
fn length_limited_table() {
    let table = HuffmanTable::build_length_limited(&[1, 1, 5, 7, 10, 14], 4).unwrap();
    let lengths: Vec<u8> = table.codes.iter().map(|c| c.length).collect();
    assert_eq!(lengths, vec![4, 4, 3, 2, 2, 2]);
    assert_eq!(
        codes_of(&table),
        vec![(0b0111, 4), (0b1111, 4), (0b011, 3), (0b00, 2), (0b10, 2), (0b01, 2)]
    );
    let tree = HuffmanTree::from(&table).unwrap();
    for (symbol, code) in table.codes.iter().enumerate() {
        assert_eq!(follow(&tree, code), Some((symbol, true)));
    }
}

#[test]
fn length_limited_table_with_too_small_a_limit() {
    assert_eq!(
        HuffmanTable::build_length_limited(&[1; 20], 4).err(),
        Some(PackageMergeError::InvalidMaxLength)
    );
}
