//! Extensible arrays.

use oxih5::ea_index::parse_extensible_array;

fn build_ea_header(idx_blk_addr: u64, element_size: u8, idx_blk_elmts: u8) -> Vec<u8> {
    let mut buf = vec![0u8; 64];
    buf[0..4].copy_from_slice(b"EAHD");
    buf[4] = 0; // version
    buf[5] = 0; // client_id
    buf[6] = element_size;
    buf[7] = 8; // max_nelmts_bits
    buf[8] = idx_blk_elmts;
    buf[9] = 1; // data_blk_min_elmts
    buf[10] = 1; // secondary_blk_min_data_block_pointers
    buf[11] = 0; // max_dblk_page_nelmts_bits
                 // num_created_blks at 12 (8 bytes)
    buf[12..20].copy_from_slice(&1u64.to_le_bytes());
    // num_realized_blks at 20 (8 bytes)
    buf[20..28].copy_from_slice(&1u64.to_le_bytes());
    // index_block_address at 28 (8 bytes)
    buf[28..36].copy_from_slice(&idx_blk_addr.to_le_bytes());
    // checksum at 36 (4 bytes)
    buf
}

#[test]
fn test_ea_no_index_block() {
    let buf = build_ea_header(u64::MAX, 24, 4);
    let result = parse_extensible_array(&buf, 0, 1).expect("parse failed");
    assert!(result.is_empty());
}

#[test]
fn test_ea_bad_signature() {
    let buf = vec![0u8; 64];
    let result = parse_extensible_array(&buf, 0, 1);
    assert!(result.is_err());
}

#[test]
fn test_ea_one_inline_element() {
    // element_size = 24 (1D: 8+4+4+8), idx_blk_elmts = 1
    let element_size: u8 = 24;
    let idx_blk_elmts: u8 = 1;

    // Index block will be placed at offset 64 in the buffer.
    let ib_addr: u64 = 64;

    let mut buf = vec![0u8; 256];
    // Header at 0.
    let hdr = build_ea_header(ib_addr, element_size, idx_blk_elmts);
    buf[..hdr.len()].copy_from_slice(&hdr);

    // Index block at 64: "EAIB" + version(1) + client_id(1) + hdr_addr(8) = 14 bytes header.
    let ib = ib_addr as usize;
    buf[ib..ib + 4].copy_from_slice(b"EAIB");
    buf[ib + 4] = 0; // version
    buf[ib + 5] = 0; // client_id
    buf[ib + 6..ib + 14].copy_from_slice(&0u64.to_le_bytes()); // back-pointer to header

    // Inline element at ib+14: address=0x2000, size=512, filter_mask=0, offset=0
    let e = ib + 14;
    buf[e..e + 8].copy_from_slice(&0x2000u64.to_le_bytes()); // address
    buf[e + 8..e + 12].copy_from_slice(&512u32.to_le_bytes()); // size
    buf[e + 12..e + 16].copy_from_slice(&0u32.to_le_bytes()); // filter_mask
    buf[e + 16..e + 24].copy_from_slice(&0u64.to_le_bytes()); // offset[0]

    let records = parse_extensible_array(&buf, 0, 1).expect("parse failed");
    assert_eq!(records.len(), 1);
    assert_eq!(records[0].address, 0x2000);
    assert_eq!(records[0].size, 512);
    assert_eq!(records[0].offsets, vec![0u64]);
}

/// Build a minimal EA with one inline element and one data block element,
/// verifying that both are returned.
#[test]
fn test_ea_with_data_block() {
    // element_size = 24 (1D: 8 addr + 4 size + 4 filter_mask + 8 offset)
    let element_size: u8 = 24;
    let elem_sz = element_size as usize;
    let idx_blk_elmts: u8 = 1;

    // --- Build the EADB (data block) at offset 0 in our buffer ---
    // Layout: sig(4) + version(1) + client_id(1) + hdr_addr(8) = 14 header bytes
    //         + 1 element + 4 checksum = 14 + 24 + 4 = 42 bytes
    let eadb_offset: usize = 0;
    let eadb_len = 14 + elem_sz + 4;
    let mut buf = vec![0u8; 512];
    buf[eadb_offset..eadb_offset + 4].copy_from_slice(b"EADB");
    buf[eadb_offset + 4] = 0; // version
    buf[eadb_offset + 5] = 1; // client_id
                              // header_addr back-pointer at [6..14] — filled in later
                              // Element: addr=0xDEAD, size=200, filter_mask=0, offset[0]=8
    let de = eadb_offset + 14; // element start in data block
    buf[de..de + 8].copy_from_slice(&0xDEADu64.to_le_bytes()); // address
    buf[de + 8..de + 12].copy_from_slice(&200u32.to_le_bytes()); // size
    buf[de + 12..de + 16].copy_from_slice(&0u32.to_le_bytes()); // filter_mask
    buf[de + 16..de + 24].copy_from_slice(&8u64.to_le_bytes()); // offset[0] = 8

    // --- Build the EAIB (index block) immediately after EADB ---
    // Layout: sig(4) + version(1) + client_id(1) + hdr_addr(8) = 14 header bytes
    //         + 1 inline element (24 bytes)
    //         + 1 data-block pointer (8 bytes, points to eadb_offset=0)
    //         + 1 terminator (8 bytes = u64::MAX)
    //         + 4 checksum
    let ib_offset: usize = eadb_len;
    let ib_len = 14 + elem_sz + 8 + 8 + 4;
    buf[ib_offset..ib_offset + 4].copy_from_slice(b"EAIB");
    buf[ib_offset + 4] = 0; // version
    buf[ib_offset + 5] = 1; // client_id
                            // header_addr back-pointer at [6..14] — filled in later
                            // Inline element: addr=0xBEEF, size=100, filter_mask=0, offset[0]=0
    let ie = ib_offset + 14; // inline element start
    buf[ie..ie + 8].copy_from_slice(&0xBEEFu64.to_le_bytes()); // address
    buf[ie + 8..ie + 12].copy_from_slice(&100u32.to_le_bytes()); // size
    buf[ie + 12..ie + 16].copy_from_slice(&0u32.to_le_bytes()); // filter_mask
    buf[ie + 16..ie + 24].copy_from_slice(&0u64.to_le_bytes()); // offset[0] = 0
                                                                // Data block pointer (points to EADB at offset 0)
    let ptr_pos = ie + elem_sz;
    buf[ptr_pos..ptr_pos + 8].copy_from_slice(&(eadb_offset as u64).to_le_bytes());
    // Terminator
    buf[ptr_pos + 8..ptr_pos + 16].copy_from_slice(&u64::MAX.to_le_bytes());

    // --- Build the EAHD (header) after the index block ---
    let hdr_offset: usize = ib_offset + ib_len;
    let hdr = build_ea_header(ib_offset as u64, element_size, idx_blk_elmts);
    buf[hdr_offset..hdr_offset + hdr.len()].copy_from_slice(&hdr);

    // Patch back-pointers: EADB and EAIB both point to the header.
    buf[eadb_offset + 6..eadb_offset + 14].copy_from_slice(&(hdr_offset as u64).to_le_bytes());
    buf[ib_offset + 6..ib_offset + 14].copy_from_slice(&(hdr_offset as u64).to_le_bytes());

    let records = parse_extensible_array(&buf, hdr_offset as u64, 1).expect("parse failed");

    // Expect exactly 2 records: 1 inline + 1 from the data block.
    assert_eq!(
        records.len(),
        2,
        "expected 2 chunk records, got {}",
        records.len()
    );

    // The inline element (0xBEEF) must be present.
    let inline = records.iter().find(|r| r.address == 0xBEEF);
    assert!(inline.is_some(), "inline element 0xBEEF not found");
    let inline = inline.unwrap();
    assert_eq!(inline.size, 100);
    assert_eq!(inline.offsets, vec![0u64]);

    // The data-block element (0xDEAD) must also be present.
    let db_rec = records.iter().find(|r| r.address == 0xDEAD);
    assert!(db_rec.is_some(), "data-block element 0xDEAD not found");
    let db_rec = db_rec.unwrap();
    assert_eq!(db_rec.size, 200);
    assert_eq!(db_rec.offsets, vec![8u64]);
}

/// Verifies that empty slots (u64::MAX addresses) inside a data block are
/// correctly skipped and do not stop parsing of subsequent valid entries.
#[test]
fn test_ea_data_block_sparse() {
    let element_size: u8 = 24;
    let elem_sz = element_size as usize;
    let idx_blk_elmts: u8 = 0; // No inline elements

    // EADB with 2 elements: first is empty slot (u64::MAX), second is valid.
    let eadb_offset: usize = 0;
    let n_db_elems = 2usize;
    let eadb_len = 14 + n_db_elems * elem_sz + 4;
    let mut buf = vec![0u8; 512];

    buf[eadb_offset..eadb_offset + 4].copy_from_slice(b"EADB");
    buf[eadb_offset + 4] = 0; // version
    buf[eadb_offset + 5] = 0; // client_id
                              // First element: empty slot
    let e0 = eadb_offset + 14;
    buf[e0..e0 + 8].copy_from_slice(&u64::MAX.to_le_bytes());
    // Second element: valid
    let e1 = e0 + elem_sz;
    buf[e1..e1 + 8].copy_from_slice(&0xCAFEu64.to_le_bytes());
    buf[e1 + 8..e1 + 12].copy_from_slice(&42u32.to_le_bytes());
    buf[e1 + 12..e1 + 16].copy_from_slice(&0u32.to_le_bytes());
    buf[e1 + 16..e1 + 24].copy_from_slice(&16u64.to_le_bytes());

    // EAIB with 0 inline elements + 1 data-block pointer + terminator
    let ib_offset = eadb_len;
    // 0 inline elements, 1 data-block pointer (8), 1 terminator (8), checksum (4)
    let ib_len = 14 + 8 + 8 + 4;
    buf[ib_offset..ib_offset + 4].copy_from_slice(b"EAIB");
    buf[ib_offset + 4] = 0;
    buf[ib_offset + 5] = 0;
    let ptr_pos = ib_offset + 14;
    buf[ptr_pos..ptr_pos + 8].copy_from_slice(&(eadb_offset as u64).to_le_bytes());
    buf[ptr_pos + 8..ptr_pos + 16].copy_from_slice(&u64::MAX.to_le_bytes());

    // EAHD
    let hdr_offset = ib_offset + ib_len;
    let hdr = build_ea_header(ib_offset as u64, element_size, idx_blk_elmts);
    buf[hdr_offset..hdr_offset + hdr.len()].copy_from_slice(&hdr);
    buf[eadb_offset + 6..eadb_offset + 14].copy_from_slice(&(hdr_offset as u64).to_le_bytes());
    buf[ib_offset + 6..ib_offset + 14].copy_from_slice(&(hdr_offset as u64).to_le_bytes());

    let records = parse_extensible_array(&buf, hdr_offset as u64, 1).expect("parse failed");
    // Only the second element (0xCAFE) should appear; the empty slot is skipped.
    assert_eq!(records.len(), 1);
    assert_eq!(records[0].address, 0xCAFE);
    assert_eq!(records[0].size, 42);
    assert_eq!(records[0].offsets, vec![16u64]);
}

#[test]
fn test_ea_skips_empty_slots() {
    // Two inline elements, first has address = UNDEF (empty slot).
    let element_size: u8 = 24;
    let idx_blk_elmts: u8 = 2;
    let ib_addr: u64 = 64;

    let mut buf = vec![0u8; 256];
    let hdr = build_ea_header(ib_addr, element_size, idx_blk_elmts);
    buf[..hdr.len()].copy_from_slice(&hdr);

    let ib = ib_addr as usize;
    buf[ib..ib + 4].copy_from_slice(b"EAIB");
    buf[ib + 4] = 0;
    buf[ib + 5] = 0;
    buf[ib + 6..ib + 14].copy_from_slice(&0u64.to_le_bytes());

    // Element 0: UNDEF address = skip.
    let e0 = ib + 14;
    buf[e0..e0 + 8].copy_from_slice(&u64::MAX.to_le_bytes());

    // Element 1: valid.
    let e1 = e0 + 24;
    buf[e1..e1 + 8].copy_from_slice(&0x3000u64.to_le_bytes());
    buf[e1 + 8..e1 + 12].copy_from_slice(&128u32.to_le_bytes());
    buf[e1 + 12..e1 + 16].copy_from_slice(&0u32.to_le_bytes());
    buf[e1 + 16..e1 + 24].copy_from_slice(&8u64.to_le_bytes()); // offset = 8

    let records = parse_extensible_array(&buf, 0, 1).expect("parse failed");
    assert_eq!(records.len(), 1);
    assert_eq!(records[0].address, 0x3000);
    assert_eq!(records[0].offsets, vec![8u64]);
}

/// Build a minimal EA with one inline element and one secondary block
/// (EASB) that contains one EADB, and verify both records are returned.
#[test]
fn test_ea_with_secondary_block() {
    // element_size = 24 (1D: 8 addr + 4 size + 4 filter_mask + 8 offset)
    let element_size: u8 = 24;
    let elem_sz = element_size as usize;
    let idx_blk_elmts: u8 = 1;

    let mut buf = vec![0u8; 1024];

    // ---- EADB at offset 0: contains 1 element ----
    let eadb_off = 0usize;
    buf[eadb_off..eadb_off + 4].copy_from_slice(b"EADB");
    buf[eadb_off + 4] = 0; // version
    buf[eadb_off + 5] = 0; // client_id
                           // hdr_addr at [6..14] — patched below
    let de = eadb_off + 14; // element start
    buf[de..de + 8].copy_from_slice(&0xABCDu64.to_le_bytes()); // address
    buf[de + 8..de + 12].copy_from_slice(&300u32.to_le_bytes()); // size
    buf[de + 12..de + 16].copy_from_slice(&0u32.to_le_bytes()); // filter_mask
    buf[de + 16..de + 24].copy_from_slice(&0u64.to_le_bytes()); // offset

    // ---- EASB at offset 50: points to EADB at offset 0 ----
    let easb_off = 50usize;
    buf[easb_off..easb_off + 4].copy_from_slice(b"EASB");
    buf[easb_off + 4] = 0; // version
    buf[easb_off + 5] = 0; // client_id
                           // hdr_addr at [6..14] — patched below
                           // blk_offset at [14..22] — leave as 0
    let easb_ptrs_off = easb_off + 22;
    buf[easb_ptrs_off..easb_ptrs_off + 8].copy_from_slice(&(eadb_off as u64).to_le_bytes()); // pointer to EADB
    buf[easb_ptrs_off + 8..easb_ptrs_off + 16].copy_from_slice(&u64::MAX.to_le_bytes()); // UNDEF terminator

    // ---- EAIB at offset 110: 1 inline element + EASB pointer + terminator ----
    let ib_off = 110usize;
    buf[ib_off..ib_off + 4].copy_from_slice(b"EAIB");
    buf[ib_off + 4] = 0; // version
    buf[ib_off + 5] = 0; // client_id
                         // hdr_addr at [6..14] — patched below
                         // Inline element
    let ie = ib_off + 14;
    buf[ie..ie + 8].copy_from_slice(&0x5678u64.to_le_bytes()); // address
    buf[ie + 8..ie + 12].copy_from_slice(&100u32.to_le_bytes()); // size
    buf[ie + 12..ie + 16].copy_from_slice(&0u32.to_le_bytes()); // filter_mask
    buf[ie + 16..ie + 24].copy_from_slice(&0u64.to_le_bytes()); // offset
                                                                // EASB pointer (not a direct EADB pointer)
    let ptr_off = ie + elem_sz;
    buf[ptr_off..ptr_off + 8].copy_from_slice(&(easb_off as u64).to_le_bytes());
    // Terminator after the EASB pointer
    buf[ptr_off + 8..ptr_off + 16].copy_from_slice(&u64::MAX.to_le_bytes());

    // ---- EAHD at offset 200 ----
    let hdr_off = 200usize;
    let hdr = build_ea_header(ib_off as u64, element_size, idx_blk_elmts);
    buf[hdr_off..hdr_off + hdr.len()].copy_from_slice(&hdr);

    // Patch back-pointers so all structures point to the header.
    buf[eadb_off + 6..eadb_off + 14].copy_from_slice(&(hdr_off as u64).to_le_bytes());
    buf[easb_off + 6..easb_off + 14].copy_from_slice(&(hdr_off as u64).to_le_bytes());
    buf[ib_off + 6..ib_off + 14].copy_from_slice(&(hdr_off as u64).to_le_bytes());

    let records =
        parse_extensible_array(&buf, hdr_off as u64, 1).expect("parse_extensible_array failed");

    assert_eq!(
        records.len(),
        2,
        "expected 2 records (1 inline + 1 via EASB→EADB), got {}",
        records.len()
    );
    assert!(
        records.iter().any(|r| r.address == 0x5678),
        "inline record (0x5678) missing"
    );
    assert!(
        records.iter().any(|r| r.address == 0xABCD),
        "EASB→EADB record (0xABCD) missing"
    );
}
