//! Chunk indexes as written.

use oxih5::write::chunked::{chunk_btree_size, write_chunk_btree};

#[test]
fn chunk_btree_size_1d() {
    // ndims=1: key_size = 8 + 2*8 = 24; total = 24 + 48 + 8 = 80
    assert_eq!(chunk_btree_size(1), 80);
}

#[test]
fn chunk_btree_size_2d() {
    // ndims=2: key_size = 8 + 3*8 = 32; total = 24 + 64 + 8 = 96
    assert_eq!(chunk_btree_size(2), 96);
}

#[test]
fn write_chunk_btree_roundtrip_signature() {
    let ndims = 1usize;
    let sz = chunk_btree_size(ndims);
    let mut buf = vec![0u8; sz];
    write_chunk_btree(&mut buf, 0, ndims, 0xABCD, 256);

    // Signature
    assert_eq!(&buf[0..4], b"TREE");
    // Node type = 1
    assert_eq!(buf[4], 1);
    // Level = 0
    assert_eq!(buf[5], 0);
    // entries_used = 1
    assert_eq!(u16::from_le_bytes([buf[6], buf[7]]), 1);
    // Left sibling = undefined
    assert_eq!(u64::from_le_bytes(buf[8..16].try_into().unwrap()), u64::MAX);
    // Right sibling = undefined
    assert_eq!(
        u64::from_le_bytes(buf[16..24].try_into().unwrap()),
        u64::MAX
    );
    // Key[0] chunk size = 256
    assert_eq!(u32::from_le_bytes(buf[24..28].try_into().unwrap()), 256u32);
    // Key[0] filter mask = 0
    assert_eq!(u32::from_le_bytes(buf[28..32].try_into().unwrap()), 0u32);
    // Child[0] = 0xABCD
    let key_size = 8 + (ndims + 1) * 8;
    let child_off = 24 + key_size;
    assert_eq!(
        u64::from_le_bytes(buf[child_off..child_off + 8].try_into().unwrap()),
        0xABCD
    );
}
