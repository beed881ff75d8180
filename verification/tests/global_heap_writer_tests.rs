//! Writing global heap collections.

use oxih5::global_heap::GlobalHeap;
use oxih5::global_heap_writer::GlobalHeapWriter;

/// Writer output must parse correctly with the existing `GlobalHeap` reader.
#[test]
fn round_trip_strings() {
    let mut w = GlobalHeapWriter::new();
    let i1 = w.write_string("hello");
    let i2 = w.write_string("world");
    let i3 = w.write_string("foo");

    assert_eq!(i1, 1);
    assert_eq!(i2, 2);
    assert_eq!(i3, 3);

    let bytes = w.build();
    let heap = GlobalHeap::parse(&bytes, 0).expect("parse GCOL");

    // Each string is stored with NUL terminator.
    assert_eq!(heap.object(1).expect("obj1"), b"hello\0");
    assert_eq!(heap.object(2).expect("obj2"), b"world\0");
    assert_eq!(heap.object(3).expect("obj3"), b"foo\0");
    assert!(heap.object(4).is_err(), "index 4 should not exist");
}

#[test]
fn round_trip_raw_bytes() {
    let mut w = GlobalHeapWriter::new();
    let idx = w.write_bytes(b"rawdata");
    assert_eq!(idx, 1);

    let bytes = w.build();
    let heap = GlobalHeap::parse(&bytes, 0).expect("parse");
    assert_eq!(heap.object(1).expect("obj1"), b"rawdata");
}

#[test]
fn empty_gcol_is_valid() {
    let w = GlobalHeapWriter::new();
    assert!(w.is_empty());
    let bytes = w.build();
    // Minimum size: 16 (header) + 16 (NIL) = 32
    assert_eq!(bytes.len(), 32);
    let heap = GlobalHeap::parse(&bytes, 0).expect("parse empty");
    assert!(heap.object(1).is_err());
}

#[test]
fn collection_size_in_header_equals_byte_length() {
    let mut w = GlobalHeapWriter::new();
    w.write_string("test_string");
    let bytes = w.build();
    let size_in_header = u64::from_le_bytes(bytes[8..16].try_into().expect("8 bytes"));
    assert_eq!(size_in_header as usize, bytes.len());
}

#[test]
fn multiple_strings_round_trip() {
    let inputs = ["", "a", "longer string with spaces", "unicode: \u{00e9}"];
    let mut w = GlobalHeapWriter::new();
    let mut indices = Vec::new();
    for s in &inputs {
        indices.push(w.write_string(s));
    }

    let bytes = w.build();
    let heap = GlobalHeap::parse(&bytes, 0).expect("parse");

    for (i, (&idx, expected)) in indices.iter().zip(inputs.iter()).enumerate() {
        let stored = heap.object(idx as u16).expect("object");
        // Strip the NUL terminator that write_string appended.
        let trimmed = stored.split(|&b| b == 0).next().unwrap_or(stored);
        let decoded = std::str::from_utf8(trimmed).expect("utf8");
        assert_eq!(
            decoded, *expected,
            "mismatch at index {i}: got {decoded:?} expected {expected:?}"
        );
    }
}

#[test]
fn gcol_placed_at_offset_parseable() {
    let mut w = GlobalHeapWriter::new();
    w.write_string("offset_test");
    let gcol = w.build();

    // Place a 32-byte preamble before the GCOL.
    let offset = 32usize;
    let mut buf = vec![0u8; offset + gcol.len()];
    buf[offset..].copy_from_slice(&gcol);

    let heap = GlobalHeap::parse(&buf, offset as u64).expect("parse at offset");
    assert_eq!(heap.object(1).expect("obj1"), b"offset_test\0");
}

#[test]
fn is_empty_and_len() {
    let mut w = GlobalHeapWriter::new();
    assert!(w.is_empty());
    assert_eq!(w.len(), 0);

    w.write_bytes(b"x");
    assert!(!w.is_empty());
    assert_eq!(w.len(), 1);

    w.write_string("y");
    assert_eq!(w.len(), 2);
}
