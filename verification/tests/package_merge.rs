use deflate_codec::package_merge::{package_merge, PackageMergeError};

fn kraft(lengths: &[u8], limit: u32) -> u64 {
    lengths.iter().filter(|&&l| l > 0).map(|&l| 1u64 << (limit - l as u32)).sum()
}

fn cost(freqs: &[u32], lengths: &[u8]) -> u64 {
    freqs.iter().zip(lengths).map(|(&f, &l)| f as u64 * l as u64).sum()
}

/// The least cost of a prefix code within the limit, by trying every
/// vector of lengths.
fn least_cost(freqs: &[u32], limit: u8) -> u64 {
    fn go(freqs: &[u32], limit: u8, at: usize, lengths: &mut Vec<u8>, best: &mut u64) {
        if at == freqs.len() {
            if kraft(lengths, limit as u32) <= 1u64 << limit {
                let c = cost(freqs, lengths);
                if c < *best {
                    *best = c;
                }
            }
            return;
        }
        for l in 1..=limit {
            lengths.push(l);
            go(freqs, limit, at + 1, lengths, best);
            lengths.pop();
        }
    }
    let mut best = u64::MAX;
    go(freqs, limit, 0, &mut Vec::new(), &mut best);
    best
}

#[test]
fn one_symbol() {
    assert_eq!(package_merge(&[7], 5), Ok(vec![1]));
    assert_eq!(package_merge(&[0], 5), Ok(vec![0]));
    assert_eq!(package_merge(&[7], 0), Ok(vec![1]));
}

#[test]
fn two_symbols() {
    assert_eq!(package_merge(&[3, 9], 5), Ok(vec![1, 1]));
    assert_eq!(package_merge(&[0, 9], 5), Ok(vec![0, 1]));
    assert_eq!(package_merge(&[3, 0], 5), Ok(vec![1, 0]));
    assert_eq!(package_merge(&[0, 0], 5), Ok(vec![0, 0]));
}

#[test]
fn no_symbol_in_use() {
    assert_eq!(package_merge(&[0; 10], 4), Ok(vec![0; 10]));
    assert_eq!(package_merge(&[0; 10], 1), Ok(vec![0; 10]));
}

#[test]
fn one_symbol_in_use_among_many() {
    let mut freqs = [0u32; 40];
    freqs[17] = 5;
    let mut expected = vec![0u8; 40];
    expected[17] = 1;
    assert_eq!(package_merge(&freqs, 3), Ok(expected));
}

#[test]
fn two_symbols_in_use_among_many() {
    assert_eq!(package_merge(&[0, 4, 0, 0, 9, 0], 2), Ok(vec![0, 1, 0, 0, 1, 0]));
}

#[test]
fn limit_too_small_for_the_alphabet() {
    assert_eq!(package_merge(&[1; 9], 3), Err(PackageMergeError::InvalidMaxLength));
    assert_eq!(package_merge(&[1, 1, 1, 0, 0], 2), Err(PackageMergeError::InvalidMaxLength));
    assert_eq!(package_merge(&[1, 2, 3], 1), Err(PackageMergeError::InvalidMaxLength));
    assert_eq!(package_merge(&[1, 2, 3], 0), Err(PackageMergeError::InvalidMaxLength));
}

#[test]
fn least_limit_gives_every_symbol_the_limit() {
    assert_eq!(package_merge(&[1; 8], 3), Ok(vec![3; 8]));
    assert_eq!(package_merge(&[1, 50, 3, 4, 900], 3), Ok(vec![3; 5]));
    assert_eq!(package_merge(&[1, 0, 3, 4, 900, 0, 2], 3), Ok(vec![3, 0, 3, 3, 3, 0, 3]));
    assert_eq!(package_merge(&[5, 6, 7], 2), Ok(vec![2, 2, 2]));
}

#[test]
fn cheapest_lengths_under_a_wide_limit() {
    let freqs = [1u32, 1, 5, 7, 10, 14];
    let lengths = package_merge(&freqs, 4).unwrap();
    assert_eq!(lengths, vec![4, 4, 3, 2, 2, 2]);
    assert_eq!(cost(&freqs, &lengths), 85);
    assert_eq!(cost(&freqs, &lengths), least_cost(&freqs, 4));
}

#[test]
fn three_equal_symbols() {
    assert_eq!(package_merge(&[1, 1, 1], 5), Ok(vec![2, 2, 1]));
}

#[test]
fn symbols_out_of_use_get_no_code() {
    let freqs = [0u32, 3, 0, 1, 1, 0, 8, 0, 2, 0, 0, 0, 0, 0, 0, 0, 0];
    let lengths = package_merge(&freqs, 6).unwrap();
    for (f, l) in freqs.iter().zip(&lengths) {
        assert_eq!(*f == 0, *l == 0);
    }
    assert_eq!(kraft(&lengths, 6), 1 << 6);
}

#[test]
fn a_binding_limit_is_kept_at_least_cost() {
    // without a limit the rarest symbols would get 7 bits
    let freqs = [1u32, 1, 2, 4, 8, 16, 32, 64];
    for limit in 4u8..=7 {
        let lengths = package_merge(&freqs, limit as usize).unwrap();
        assert!(lengths.iter().all(|&l| 1 <= l && l <= limit));
        assert!(kraft(&lengths, limit as u32) <= 1 << limit);
        assert_eq!(cost(&freqs, &lengths), least_cost(&freqs, limit));
    }
}

#[test]
fn lengths_make_a_prefix_code_at_least_cost() {
    let mut state: u32 = 99;
    for round in 0..200usize {
        let n: usize = 3 + round % 5;
        let mut freqs = Vec::new();
        for _ in 0..n {
            state = state.wrapping_mul(1664525).wrapping_add(1013904223);
            freqs.push(1 + (state >> 24) % 40);
        }
        // the least limit gives every symbol the same length, so start above it
        let least = (usize::BITS - (n - 1).leading_zeros()) as u8;
        for limit in least + 1..=5 {
            let lengths = package_merge(&freqs, limit as usize).unwrap();
            assert!(lengths.iter().all(|&l| 1 <= l && l <= limit));
            // no code is left unused
            assert_eq!(kraft(&lengths, limit as u32), 1 << limit);
            assert_eq!(cost(&freqs, &lengths), least_cost(&freqs, limit), "{:?} {}", freqs, limit);
        }
    }
}

#[test]
fn a_large_alphabet() {
    let mut freqs = vec![0u32; 286];
    let mut state: u32 = 5;
    for f in freqs.iter_mut() {
        state = state.wrapping_mul(1664525).wrapping_add(1013904223);
        *f = (state >> 20) % 1000;
    }
    let lengths = package_merge(&freqs, 15).unwrap();
    assert_eq!(lengths.len(), 286);
    assert!(lengths.iter().all(|&l| l <= 15));
    for (f, l) in freqs.iter().zip(&lengths) {
        assert_eq!(*f == 0, *l == 0);
    }
    assert_eq!(kraft(&lengths, 15), 1 << 15);
}
