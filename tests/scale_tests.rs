use orasort::orasort;

#[test]
fn test_sort_1m() {
    let count = 1_000_000;
    let mut state: u64 = 0x2545F4914F6CDD1D;
    let mut next = move || {
        state ^= state << 13;
        state ^= state >> 7;
        state ^= state << 17;
        state
    };
    let input: Vec<Vec<u8>> = (0..count)
        .map(|_| {
            let len = 4 + (next() % 13) as usize;
            (0..len).map(|_| next() as u8).collect()
        })
        .collect();

    let indices = orasort(&input);
    assert_eq!(indices.len(), count);

    let mut expected = input.clone();
    expected.sort();
    for (i, &idx) in indices.iter().enumerate() {
        assert!(input[idx] == expected[i], "Sort failed at index {}", i);
    }
}
