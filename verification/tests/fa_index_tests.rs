//! Fixed arrays.

use oxih5::fa_index::{parse_fixed_array, parse_fixed_array_v4};

/// Build a minimal FA header in `buf` at offset `hdr_off`.
///
/// Layout:
///  0  4  "FAHD"
///  4  1  version = 0
///  5  1  client_id = 0
///  6  1  element_size
///  7  1  max_nelmts_bits = 0 (placeholder)
///  8  8  max_nelmts (u64 LE)
/// 16  8  data_block_addr (u64 LE)
/// 24  4  checksum (zeros)
fn write_fa_header(
    buf: &mut [u8],
    hdr_off: usize,
    element_size: u8,
    max_nelmts: u64,
    data_block_addr: u64,
) {
    buf[hdr_off..hdr_off + 4].copy_from_slice(b"FAHD");
    buf[hdr_off + 4] = 0; // version
    buf[hdr_off + 5] = 0; // client_id
    buf[hdr_off + 6] = element_size;
    buf[hdr_off + 7] = 0; // max_nelmts_bits (placeholder)
    buf[hdr_off + 8..hdr_off + 16].copy_from_slice(&max_nelmts.to_le_bytes());
    buf[hdr_off + 16..hdr_off + 24].copy_from_slice(&data_block_addr.to_le_bytes());
    // checksum bytes at hdr_off+24..+28 stay as 0
}

#[test]
fn test_fa_no_data_block() {
    let mut buf = vec![0u8; 32];
    write_fa_header(&mut buf, 0, 24, 4, u64::MAX);
    let result = parse_fixed_array(&buf, 0, 1).expect("parse failed");
    assert!(result.is_empty());
}

#[test]
fn test_fa_one_element_1d() {
    // 1D dataset, filtered (client_id=1): element_size = 8(addr)+8(size_u64)+4(filter_mask) = 20
    // Offsets are derived from element position (index 0 → dataset offset 0).
    let element_size: u8 = 20;
    let max_nelmts: u64 = 1;
    let db_addr: u64 = 64;
    let chunk_dim: u64 = 10;
    let elem_sz: u64 = 8;

    let mut buf = vec![0u8; 256];
    write_fa_header(&mut buf, 0, element_size, max_nelmts, db_addr);
    // Set client_id = 1 (filtered) in the FAHD header.
    buf[5] = 1;

    // Data block at 64: FADB header (14 bytes) + 1 element (20 bytes).
    let db = db_addr as usize;
    buf[db..db + 4].copy_from_slice(b"FADB");
    buf[db + 4] = 0; // version
    buf[db + 5] = 1; // client_id = 1 (filtered)
    buf[db + 6..db + 14].copy_from_slice(&0u64.to_le_bytes()); // back-ptr

    let e = db + 14;
    buf[e..e + 8].copy_from_slice(&0x4000u64.to_le_bytes()); // address
    buf[e + 8..e + 16].copy_from_slice(&1024u64.to_le_bytes()); // compressed size (u64)
    buf[e + 16..e + 20].copy_from_slice(&0u32.to_le_bytes()); // filter_mask

    let records =
        parse_fixed_array_v4(&buf, 0, 1, &[chunk_dim], (chunk_dim * elem_sz) as usize)
            .expect("parse failed");
    assert_eq!(records.len(), 1);
    assert_eq!(records[0].address, 0x4000);
    assert_eq!(records[0].size, 1024);
    assert_eq!(records[0].filter_mask, 0);
    // Offset derived from element position 0: chunk_dim * 0 = 0
    assert_eq!(records[0].offsets, vec![0u64]);
}

#[test]
fn test_fa_two_elements_second_empty() {
    // Two slots, first is valid, second is empty (UNDEF address).
    let element_size: u8 = 24;
    let db_addr: u64 = 64;

    let mut buf = vec![0u8; 256];
    write_fa_header(&mut buf, 0, element_size, 2, db_addr);

    let db = db_addr as usize;
    buf[db..db + 4].copy_from_slice(b"FADB");
    buf[db + 4] = 0;
    buf[db + 5] = 0;
    buf[db + 6..db + 14].copy_from_slice(&0u64.to_le_bytes());

    let e0 = db + 14;
    buf[e0..e0 + 8].copy_from_slice(&0x5000u64.to_le_bytes());
    buf[e0 + 8..e0 + 12].copy_from_slice(&64u32.to_le_bytes());
    buf[e0 + 12..e0 + 16].copy_from_slice(&0u32.to_le_bytes());
    buf[e0 + 16..e0 + 24].copy_from_slice(&0u64.to_le_bytes());

    let e1 = e0 + 24;
    buf[e1..e1 + 8].copy_from_slice(&u64::MAX.to_le_bytes()); // UNDEF
                                                              // rest stays zero

    let records = parse_fixed_array(&buf, 0, 1).expect("parse failed");
    assert_eq!(records.len(), 1);
    assert_eq!(records[0].address, 0x5000);
}

#[test]
fn test_fa_bad_signature() {
    let buf = vec![0u8; 64];
    assert!(parse_fixed_array(&buf, 0, 1).is_err());
}

#[test]
fn test_fa_bad_data_block_signature() {
    let element_size: u8 = 24;
    let db_addr: u64 = 64;
    let mut buf = vec![0u8; 256];
    write_fa_header(&mut buf, 0, element_size, 1, db_addr);
    // Leave data block signature as zeros (invalid).
    let result = parse_fixed_array(&buf, 0, 1);
    assert!(result.is_err());
}

#[test]
fn test_fa_2d_offsets() {
    // 2D dataset: element_size = 8+4+4+8+8 = 32 (two 8-byte offsets)
    let element_size: u8 = 32;
    let db_addr: u64 = 64;

    let mut buf = vec![0u8; 256];
    write_fa_header(&mut buf, 0, element_size, 1, db_addr);

    let db = db_addr as usize;
    buf[db..db + 4].copy_from_slice(b"FADB");
    buf[db + 4] = 0;
    buf[db + 5] = 0;
    buf[db + 6..db + 14].copy_from_slice(&0u64.to_le_bytes());

    let e = db + 14;
    buf[e..e + 8].copy_from_slice(&0x6000u64.to_le_bytes()); // address
    buf[e + 8..e + 12].copy_from_slice(&2048u32.to_le_bytes()); // size
    buf[e + 12..e + 16].copy_from_slice(&0u32.to_le_bytes()); // filter_mask
    buf[e + 16..e + 24].copy_from_slice(&4u64.to_le_bytes()); // offset[0] = 4
    buf[e + 24..e + 32].copy_from_slice(&8u64.to_le_bytes()); // offset[1] = 8

    let records = parse_fixed_array(&buf, 0, 2).expect("parse failed");
    assert_eq!(records.len(), 1);
    assert_eq!(records[0].offsets, vec![4u64, 8u64]);
}
