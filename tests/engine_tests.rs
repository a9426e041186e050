use orasort::prefix::load_u64_be;
use orasort::{orasort, orasort_from_indices, orasort_mut, orasort_slice};

struct Rng(u64);

impl Rng {
    fn new(seed: u64) -> Self {
        Rng(seed.wrapping_mul(0x9E3779B97F4A7C15) | 1)
    }

    fn next(&mut self) -> u64 {
        let mut x = self.0;
        x ^= x >> 12;
        x ^= x << 25;
        x ^= x >> 27;
        self.0 = x;
        x.wrapping_mul(0x2545F4914F6CDD1D)
    }

    fn below(&mut self, n: usize) -> usize {
        (self.next() % (n as u64)) as usize
    }

    fn bytes(&mut self, len: usize) -> Vec<u8> {
        (0..len).map(|_| self.next() as u8).collect()
    }
}

/// The order std's stable sort gives: indices by key, ties by index.
fn std_order(input: &[Vec<u8>]) -> Vec<usize> {
    let mut idx: Vec<usize> = (0..input.len()).collect();
    idx.sort_by(|&a, &b| input[a].cmp(&input[b]));
    idx
}

fn assert_sorted_permutation(input: &[Vec<u8>], indices: &[usize]) {
    assert_eq!(indices.len(), input.len());
    let mut seen = vec![false; input.len()];
    for &i in indices {
        assert!(i < input.len());
        assert!(!seen[i]);
        seen[i] = true;
    }
    for w in indices.windows(2) {
        assert!(input[w[0]] <= input[w[1]]);
    }
}

#[test]
fn test_three_fruits_indices() {
    let data = vec!["banana", "apple", "cherry"];
    assert_eq!(orasort(&data), vec![1, 0, 2]);
}

#[test]
fn test_four_fruits_in_place() {
    let mut data = vec!["banana", "apple", "cherry", "date"];
    orasort_mut(&mut data);
    assert_eq!(data, vec!["apple", "banana", "cherry", "date"]);
}

#[test]
fn test_result_is_sorted_permutation() {
    let mut rng = Rng::new(11);
    for round in 0..20 {
        let n = if round % 2 == 0 { 3000 } else { 40 };
        let input: Vec<Vec<u8>> = (0..n)
            .map(|_| {
                let len = rng.below(12);
                (0..len).map(|_| (rng.next() % 3) as u8).collect()
            })
            .collect();
        let indices = orasort(&input);
        assert_sorted_permutation(&input, &indices);
    }
}

#[test]
fn test_in_place_matches_indices() {
    let mut rng = Rng::new(5);
    let input: Vec<Vec<u8>> = (0..2500)
        .map(|_| {
            let len = rng.below(6);
            (0..len).map(|_| (rng.next() % 4) as u8).collect()
        })
        .collect();
    let indices = orasort(&input);
    let materialized: Vec<Vec<u8>> = indices.iter().map(|&i| input[i].clone()).collect();
    let mut in_place = input.clone();
    orasort_mut(&mut in_place);
    assert_eq!(in_place, materialized);
}

#[test]
fn test_distinct_keys_match_reference() {
    let mut rng = Rng::new(6);
    let mut input: Vec<Vec<u8>> = Vec::new();
    for i in 0..3000u32 {
        let mut key = { let n = rng.below(10); rng.bytes(n) };
        key.extend_from_slice(&i.to_be_bytes());
        input.push(key);
    }
    assert_eq!(orasort(&input), std_order(&input));
}

#[test]
fn test_ties_keep_index_order() {
    let mut rng = Rng::new(7);
    let input: Vec<Vec<u8>> = (0..3000).map(|_| vec![(rng.next() % 5) as u8; 3]).collect();
    assert_eq!(orasort(&input), std_order(&input));
}

#[test]
fn test_sorted_input_gives_identity() {
    let mut rng = Rng::new(8);
    let mut input: Vec<Vec<u8>> = (0..3000)
        .map(|_| {
            let len = rng.below(5);
            (0..len).map(|_| (rng.next() % 3) as u8).collect()
        })
        .collect();
    input.sort();
    let identity: Vec<usize> = (0..input.len()).collect();
    assert_eq!(orasort(&input), identity);
}

#[test]
fn test_all_empty_keys_identity() {
    let input: Vec<Vec<u8>> = vec![vec![]; 3000];
    let identity: Vec<usize> = (0..input.len()).collect();
    assert_eq!(orasort(&input), identity);
    let mut data = input.clone();
    orasort_mut(&mut data);
    assert_eq!(data, input);
}

#[test]
fn test_identical_keys_identity() {
    let input: Vec<String> = vec!["same key".to_string(); 3000];
    let identity: Vec<usize> = (0..input.len()).collect();
    assert_eq!(orasort(&input), identity);
    let mut data = input.clone();
    orasort_mut(&mut data);
    assert_eq!(data, input);
}

#[test]
fn test_short_keys_before_longer() {
    // 3000 keys of 'x' bytes, 0 to 29 long: the radix pass skips the common
    // bytes, so most keys end before the offset the region has reached.
    let input: Vec<Vec<u8>> = (0..3000).map(|i| vec![b'x'; (i * 7) % 30]).collect();
    let indices = orasort(&input);
    for w in indices.windows(2) {
        assert!(input[w[0]].len() <= input[w[1]].len());
    }
    assert_eq!(indices, std_order(&input));
}

#[test]
fn test_block_skip_long_prefix() {
    let mut rng = Rng::new(9);
    let prefix = vec![b'a'; 100];
    let input: Vec<Vec<u8>> = (0..3000)
        .map(|_| {
            let mut k = prefix.clone();
            let tail = { let n = rng.below(4); rng.bytes(n) };
            k.extend_from_slice(&tail);
            k
        })
        .collect();
    assert_eq!(orasort(&input), std_order(&input));
}

#[test]
fn test_degenerate_zero_bytes() {
    let mut rng = Rng::new(10);
    let input: Vec<Vec<u8>> = (0..3000)
        .map(|_| {
            let zeros = rng.below(12);
            let mut k = vec![0u8; zeros];
            if rng.below(2) == 0 {
                k.push((rng.next() % 3) as u8);
            }
            k
        })
        .collect();
    assert_eq!(orasort(&input), std_order(&input));
}

#[test]
fn test_key_lengths_around_cache() {
    let mut input: Vec<Vec<u8>> = Vec::new();
    for len in 6..11 {
        for pos in 0..len {
            for val in [0u8, 1, 255] {
                let mut k = vec![7u8; len];
                k[pos] = val;
                input.push(k);
            }
        }
    }
    for _ in 0..4 {
        let copy = input.clone();
        input.extend(copy);
    }
    assert!(input.len() > 1024);
    assert_eq!(orasort(&input), std_order(&input));
}

#[test]
fn test_single_row() {
    let input = vec![vec![3u8, 1]];
    assert_eq!(orasort(&input), vec![0]);
}

#[test]
fn test_from_indices_with_offset() {
    let input: Vec<String> = vec![
        "keyzz".to_string(),
        "other".to_string(),
        "keyab".to_string(),
        "key".to_string(),
        "keyb".to_string(),
    ];
    let r = orasort_from_indices(&input, vec![0, 2, 3, 4, 2], 3);
    assert_eq!(r, vec![3, 2, 2, 4, 0]);
    assert!(orasort_from_indices(&input, vec![], 3).is_empty());
}

#[test]
fn test_slice_with_offset() {
    let mut rng = Rng::new(12);
    let input: Vec<Vec<u8>> = (0..2000)
        .map(|_| {
            let mut k = b"head".to_vec();
            let tail = { let n = rng.below(6); rng.bytes(n) };
            k.extend_from_slice(&tail);
            k
        })
        .collect();
    let mut indices: Vec<usize> = (0..input.len()).rev().collect();
    orasort_slice(&input, &mut indices, 4);
    assert_sorted_permutation(&input, &indices);
}

#[test]
fn test_load_u64_be_values() {
    assert_eq!(load_u64_be(b"abcdefghij", 0), 0x6162636465666768);
    assert_eq!(load_u64_be(b"abcdefghij", 1), 0x6263646566676869);
    assert_eq!(load_u64_be(b"abcdefghij", 5), 0x666768696a000000);
    assert_eq!(load_u64_be(b"ab", 0), 0x6162000000000000);
    assert_eq!(load_u64_be(b"ab", 2), 0);
    assert_eq!(load_u64_be(b"", 0), 0);
    assert_eq!(load_u64_be(&[0, 0, 1], 0), 0x0000010000000000);
}

#[test]
fn test_slice_and_byte_slice_rows() {
    let rows: Vec<&[u8]> = vec![b"zeta", b"", b"alpha\x00", b"alpha"];
    assert_eq!(orasort(&rows[..]), vec![1, 3, 2, 0]);
    assert_eq!(orasort(&rows), vec![1, 3, 2, 0]);
    let mut owned: Vec<&[u8]> = rows.clone();
    orasort_mut(&mut owned);
    assert_eq!(owned, vec![&b""[..], &b"alpha"[..], &b"alpha\x00"[..], &b"zeta"[..]]);
}

#[test]
fn test_small_regions_by_insertion() {
    let mut rng = Rng::new(13);
    for n in 0..40 {
        let input: Vec<Vec<u8>> = (0..n)
            .map(|_| {
                let len = rng.below(10);
                (0..len).map(|_| (rng.next() % 3) as u8).collect()
            })
            .collect();
        assert_eq!(orasort(&input), std_order(&input));
    }
}

#[test]
fn test_slice_few_rows_with_offset() {
    let input: Vec<&str> = vec!["pre-b", "pre-", "pre-ab", "pre-a", "pre-b"];
    let mut indices: Vec<usize> = vec![0, 1, 2, 3, 4];
    orasort_slice(&input, &mut indices, 4);
    assert_eq!(indices, vec![1, 3, 2, 0, 4]);
    let mut empty: Vec<usize> = Vec::new();
    orasort_slice(&input, &mut empty, 4);
    assert!(empty.is_empty());
}

#[test]
fn test_from_indices_without_shared_prefix() {
    let input: Vec<&str> = vec!["bz", "ay", "b", "a"];
    // the keys differ below the offset: the rows still come back, in key order
    let r = orasort_from_indices(&input, vec![0, 1, 2, 3], 1);
    assert_eq!(r, vec![3, 1, 2, 0]);
    let mut indices = vec![3, 0, 2, 1, 0];
    orasort_slice(&input, &mut indices, 5);
    assert_eq!(indices, vec![3, 1, 2, 0, 0]);
}

#[test]
fn test_from_indices_keeps_order_of_equal_keys() {
    let input: Vec<&str> = vec!["same", "same", "other", "same"];
    let r = orasort_from_indices(&input, vec![3, 1, 2, 0, 1], 0);
    assert_eq!(r, vec![2, 3, 1, 0, 1]);
    let mut indices = vec![3, 1, 2, 0, 1];
    orasort_slice(&input, &mut indices, 2);
    assert_eq!(indices, vec![2, 3, 1, 0, 1]);
}

#[test]
fn test_from_all_indices_matches_orasort() {
    let mut rng = Rng::new(14);
    let input: Vec<Vec<u8>> = (0..3000)
        .map(|_| {
            let len = rng.below(5);
            (0..len).map(|_| (rng.next() % 3) as u8).collect()
        })
        .collect();
    let all: Vec<usize> = (0..input.len()).collect();
    let expected = orasort(&input);
    assert_eq!(orasort_from_indices(&input, all.clone(), 0), expected);
    let mut in_place = all;
    orasort_slice(&input, &mut in_place, 0);
    assert_eq!(in_place, expected);
}
