use orasort::{orasort, KeyAccessor};

// A flat buffer of concatenated keys with the start offset of each row, as
// column stores keep them.
struct MockArrowArray {
    data: Vec<u8>,
    offsets: Vec<usize>,
}

impl MockArrowArray {
    fn new(strings: &[&str]) -> Self {
        let mut data = Vec::new();
        let mut offsets = vec![0];
        for s in strings {
            data.extend_from_slice(s.as_bytes());
            offsets.push(data.len());
        }
        Self { data, offsets }
    }
}

impl KeyAccessor for MockArrowArray {
    fn get_key(&self, index: usize) -> &[u8] {
        let start = self.offsets[index];
        let end = self.offsets[index + 1];
        &self.data[start..end]
    }

    fn len(&self) -> usize {
        self.offsets.len() - 1
    }
}

#[test]
fn test_external_struct_compatibility() {
    let mock = MockArrowArray::new(&["foo", "bar", "baz"]);
    let indices = orasort(&mock);

    // sorted: bar (1), baz (2), foo (0)
    assert_eq!(indices, vec![1, 2, 0]);
}

#[test]
fn test_flat_buffer_prefix_reads() {
    let mock = MockArrowArray::new(&["abcdefghij", "ab", ""]);
    assert_eq!(mock.get_u64_prefix(0, 0), 0x6162636465666768);
    assert_eq!(mock.get_u64_prefix(0, 2), 0x636465666768696a);
    assert_eq!(mock.get_u64_prefix(1, 0), 0x6162000000000000);
    assert_eq!(mock.get_u64_prefix(1, 2), 0);
    assert_eq!(mock.get_u64_prefix(2, 0), 0);
    assert!(!mock.is_empty());
}
