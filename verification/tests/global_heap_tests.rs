//! Global heap collections.

use oxih5::global_heap::GlobalHeap;

fn build_gcol(objects: &[(u16, &[u8])]) -> Vec<u8> {
    // Build a minimal GCOL collection in memory for testing
    let mut data = Vec::new();
    data.extend_from_slice(b"GCOL");
    data.push(1); // version
    data.extend_from_slice(&[0u8; 3]); // reserved
                                       // placeholder for collection size (will fill in at end)
    let size_pos = data.len();
    data.extend_from_slice(&[0u8; 8]);

    for (idx, obj_data) in objects {
        data.extend_from_slice(&idx.to_le_bytes());
        data.extend_from_slice(&1u16.to_le_bytes()); // ref_count
        data.extend_from_slice(&[0u8; 4]); // reserved
        data.extend_from_slice(&(obj_data.len() as u64).to_le_bytes());
        data.extend_from_slice(obj_data);
        // pad to 8-byte alignment
        let pad = (8 - (data.len() % 8)) % 8;
        data.extend(std::iter::repeat(0u8).take(pad));
    }

    // NIL terminator
    data.extend_from_slice(&[0u8; 16]);

    // Fill in collection size
    let total = data.len() as u64;
    data[size_pos..size_pos + 8].copy_from_slice(&total.to_le_bytes());
    data
}

#[test]
fn test_global_heap_basic() {
    let gcol = build_gcol(&[(1, b"hello"), (2, b"world!")]);
    let heap = GlobalHeap::parse(&gcol, 0).unwrap();
    assert_eq!(heap.object(1).unwrap(), b"hello");
    assert_eq!(heap.object(2).unwrap(), b"world!");
    assert!(heap.object(3).is_err());
}

#[test]
fn test_global_heap_bad_signature() {
    let mut gcol = build_gcol(&[(1, b"test")]);
    gcol[0] = b'X'; // corrupt signature
    assert!(GlobalHeap::parse(&gcol, 0).is_err());
}

#[test]
fn test_global_heap_nil_terminator() {
    let gcol = build_gcol(&[]);
    let heap = GlobalHeap::parse(&gcol, 0).unwrap();
    assert!(heap.object(1).is_err());
}

#[test]
fn test_global_heap_bad_version() {
    let mut gcol = build_gcol(&[(1, b"data")]);
    gcol[4] = 2; // unsupported version
    assert!(GlobalHeap::parse(&gcol, 0).is_err());
}

#[test]
fn test_global_heap_offset() {
    // Collection placed at offset 16 in a larger buffer
    let gcol = build_gcol(&[(1, b"offset_test")]);
    let mut buf = vec![0u8; 16];
    buf.extend_from_slice(&gcol);
    let heap = GlobalHeap::parse(&buf, 16).unwrap();
    assert_eq!(heap.object(1).unwrap(), b"offset_test");
}
