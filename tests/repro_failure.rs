use orasort::orasort;

#[test]
fn test_zeroed_entries() {
    // Many short keys, so that `[0]` and `[]` meet in the radix pass.
    let mut state: u64 = 42;
    let mut next = move || {
        state ^= state << 13;
        state ^= state >> 7;
        state ^= state << 17;
        state
    };

    for _iter in 0..10 {
        let len = 2000 + (next() % 3000) as usize;
        let mut input: Vec<Vec<u8>> = Vec::new();

        for _ in 0..len {
            let row_len = (next() % 4) as usize;
            let row: Vec<u8> = (0..row_len).map(|_| next() as u8).collect();
            input.push(row);
        }

        let indices = orasort(&input);

        let mut expected = input.clone();
        expected.sort();

        let actual: Vec<Vec<u8>> = indices.iter().map(|&i| input[i].clone()).collect();

        if actual != expected {
            for (i, (a, b)) in actual.iter().zip(expected.iter()).enumerate() {
                if a != b {
                    panic!("Mismatch at index {}: Got {:?}, Expected {:?}", i, a, b);
                }
            }
            panic!(
                "Lengths differ? Actual: {}, Expected: {}",
                actual.len(),
                expected.len()
            );
        }
    }
}
