use orasort::prelude::{orasort, orasort_mut};
use std::collections::VecDeque;

/// A small deterministic generator (xorshift64*), so that the randomised
/// checks are repeatable.
struct Rng(u64);

impl Rng {
    fn new(seed: u64) -> Self {
        Rng(seed.wrapping_mul(0x9E3779B97F4A7C15) | 1)
    }

    fn next(&mut self) -> u64 {
        let mut x = self.0;
        x ^= x >> 12;
        x ^= x << 25;
        x ^= x >> 27;
        self.0 = x;
        x.wrapping_mul(0x2545F4914F6CDD1D)
    }

    fn below(&mut self, n: usize) -> usize {
        (self.next() % (n as u64)) as usize
    }

    fn bytes(&mut self, len: usize) -> Vec<u8> {
        (0..len).map(|_| self.next() as u8).collect()
    }
}

#[test]
fn test_basic_sort_strings() {
    let input = vec![
        "banana".to_string(),
        "apple".to_string(),
        "cherry".to_string(),
        "date".to_string(),
    ];

    let indices = orasort(&input);

    let sorted: Vec<&String> = indices.iter().map(|&i| &input[i]).collect();
    assert_eq!(sorted, vec!["apple", "banana", "cherry", "date"]);
}

#[test]
fn test_long_common_prefix() {
    let prefix = "a".repeat(100);
    let input = vec![
        format!("{}c", prefix),
        format!("{}a", prefix),
        format!("{}b", prefix),
    ];

    let indices = orasort(&input);
    let sorted: Vec<&String> = indices.iter().map(|&i| &input[i]).collect();

    assert!(sorted[0].ends_with("a"));
    assert!(sorted[1].ends_with("b"));
    assert!(sorted[2].ends_with("c"));
}

#[test]
fn test_cache_boundary_sort() {
    // Differences at byte 7, 8 and 9: inside the first cached prefix, at
    // its end, and past it.
    let base = vec![0u8; 16];

    let mut v1 = base.clone();
    v1[7] = 2;
    let mut v2 = base.clone();
    v2[7] = 1;

    let mut v3 = base.clone();
    v3[8] = 2;
    let mut v4 = base.clone();
    v4[8] = 1;

    let mut v5 = base.clone();
    v5[9] = 2;
    let mut v6 = base.clone();
    v6[9] = 1;

    let input = vec![
        v1.clone(),
        v2.clone(),
        v3.clone(),
        v4.clone(),
        v5.clone(),
        v6.clone(),
    ];

    let indices = orasort(&input);

    let mut expected = input.clone();
    expected.sort();

    let actual: Vec<Vec<u8>> = indices.iter().map(|&i| input[i].clone()).collect();
    assert_eq!(actual, expected);
}

#[test]
fn test_fuzz_random() {
    let mut rng = Rng::new(1);
    let mut input: Vec<Vec<u8>> = Vec::new();

    for _ in 0..10_000 {
        let len = rng.below(50);
        input.push(rng.bytes(len));
    }

    let indices = orasort(&input);

    let mut expected = input.clone();
    expected.sort();

    let actual: Vec<Vec<u8>> = indices.iter().map(|&i| input[i].clone()).collect();
    assert_eq!(actual, expected);
}

#[test]
fn test_fuzz_random_mut() {
    let mut rng = Rng::new(2);

    for _ in 0..10_000 {
        let count = rng.below(20);
        let mut input: Vec<Vec<u8>> = (0..count)
            .map(|_| {
                let inner_len = rng.below(50);
                rng.bytes(inner_len)
            })
            .collect();

        let mut expected = input.clone();
        expected.sort();

        orasort_mut(&mut input);
        assert_eq!(input, expected);
    }
}

#[test]
fn test_fuzz_random_mut_large() {
    let mut rng = Rng::new(3);

    for _ in 0..100 {
        let count = 100 + rng.below(900);
        let mut input: Vec<Vec<u8>> = (0..count)
            .map(|_| {
                let inner_len = rng.below(100);
                rng.bytes(inner_len)
            })
            .collect();

        let mut expected = input.clone();
        expected.sort();

        orasort_mut(&mut input);
        assert_eq!(input, expected);
    }
}

#[test]
fn test_fuzz_edge_cases_mut() {
    // 1. All empty
    let mut input: Vec<Vec<u8>> = vec![vec![]; 50];
    let expected = input.clone();
    orasort_mut(&mut input);
    assert_eq!(input, expected);

    // 2. All same
    let mut input = vec![vec![1u8, 2, 3]; 50];
    let expected = input.clone();
    orasort_mut(&mut input);
    assert_eq!(input, expected);

    // 3. Reversed
    let mut input: Vec<Vec<u8>> = (0..50).map(|i| vec![i as u8]).rev().collect();
    let mut expected = input.clone();
    expected.sort();
    orasort_mut(&mut input);
    assert_eq!(input, expected);

    // 4. Sorted
    let mut input: Vec<Vec<u8>> = (0..50).map(|i| vec![i as u8]).collect();
    let expected = input.clone();
    orasort_mut(&mut input);
    assert_eq!(input, expected);
}

#[test]
fn test_sort_string_bytes() {
    let input = "banana";
    let indices = orasort(input);

    // 'a' at 1, 3, 5; 'b' at 0; 'n' at 2, 4.
    let sorted_bytes: Vec<u8> = indices.iter().map(|&i| input.as_bytes()[i]).collect();
    assert_eq!(sorted_bytes, b"aaabnn".to_vec());
}

#[test]
fn test_vec_deque() {
    let input: VecDeque<String> = VecDeque::from(vec![
        "banana".to_string(),
        "apple".to_string(),
        "cherry".to_string(),
    ]);

    let indices = orasort(&input);

    let sorted: Vec<&String> = indices.iter().map(|&i| &input[i]).collect();
    assert_eq!(sorted, vec!["apple", "banana", "cherry"]);
}

#[test]
fn test_empty() {
    let input: Vec<String> = vec![];
    let indices = orasort(&input);
    assert!(indices.is_empty());
}

#[test]
fn test_mutable_sort() {
    let mut data = vec![
        "banana".to_string(),
        "apple".to_string(),
        "cherry".to_string(),
    ];
    orasort_mut(&mut data);
    assert_eq!(data, vec!["apple", "banana", "cherry"]);
}
