use deflate_codec::bitset::Bitset;

#[test]
fn a_new_set_is_empty() {
    let set = Bitset::with_capacity(100);
    assert!(!set.contains(&0));
    assert!(!set.contains(&99));
    assert!(!set.contains(&100_000));
    assert_eq!(set.count_ones(), 0);
    assert_eq!(set.iter(), Vec::<usize>::new());
}

#[test]
fn insert_and_remove() {
    let mut set = Bitset::with_capacity(0);
    set.insert(3);
    set.set(64);
    set.insert(1000);
    assert!(set.contains(&3));
    assert!(set.contains(&64));
    assert!(set.contains(&1000));
    assert!(!set.contains(&4));
    assert_eq!(set.count_ones(), 3);
    set.remove(64);
    set.clear(5000);
    assert!(!set.contains(&64));
    assert_eq!(set.count_ones(), 2);
    set.clear(3);
    assert_eq!(set.iter(), vec![1000]);
}

#[test]
fn members_are_listed_by_word_and_from_the_top() {
    let mut set = Bitset::with_capacity(200);
    for v in [0usize, 1, 63, 64, 70, 130] {
        set.insert(v);
    }
    assert_eq!(set.iter(), vec![63, 1, 0, 70, 64, 130]);
}

#[test]
fn extend_is_union() {
    let mut a = Bitset::with_capacity(10);
    a.insert(1);
    a.insert(5);
    let mut b = Bitset::with_capacity(300);
    b.insert(5);
    b.insert(200);
    a.extend(&b);
    assert_eq!(a.iter(), vec![5, 1, 200]);
    assert_eq!(a.count_ones(), 3);
    assert_eq!(b.count_ones(), 2);
}

#[test]
fn counting_in_ranges() {
    let mut set = Bitset::with_capacity(256);
    for v in [0usize, 5, 63, 64, 65, 127, 128, 200] {
        set.insert(v);
    }
    assert_eq!(set.count_ones_sliced(0, 0), 0);
    assert_eq!(set.count_ones_sliced(0, 1), 1);
    assert_eq!(set.count_ones_sliced(0, 64), 3);
    assert_eq!(set.count_ones_sliced(0, 65), 4);
    assert_eq!(set.count_ones_sliced(5, 6), 1);
    assert_eq!(set.count_ones_sliced(6, 63), 0);
    assert_eq!(set.count_ones_sliced(63, 128), 4);
    assert_eq!(set.count_ones_sliced(63, 129), 5);
    assert_eq!(set.count_ones_sliced(1, 256), 7);
    // past the end of the storage
    assert_eq!(set.count_ones_sliced(0, 100_000), 8);
    assert_eq!(set.count_ones_sliced(256, 100_000), 0);
    assert_eq!(set.count_ones_sliced(100_000, 100_000), 0);
}

#[test]
fn counting_matches_listing() {
    let mut set = Bitset::with_capacity(0);
    let mut state: u32 = 7;
    for _ in 0..500 {
        state = state.wrapping_mul(1103515245).wrapping_add(12345);
        set.insert((state >> 16) as usize % 2000);
    }
    let members = set.iter();
    assert_eq!(set.count_ones(), members.len());
    for from in [0usize, 1, 63, 64, 100, 777] {
        for to in [from, from + 1, from + 64, from + 500, 2000, 5000] {
            let expected = members.iter().filter(|&&m| from <= m && m < to).count();
            assert_eq!(set.count_ones_sliced(from, to), expected);
        }
    }
}
