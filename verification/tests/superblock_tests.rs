//! Superblocks.

use oxih5::superblock::parse;
use oxih5::OxiH5Error;

const HDF5_SIGNATURE: [u8; 8] = [0x89, 0x48, 0x44, 0x46, 0x0d, 0x0a, 0x1a, 0x0a];

/// Build a minimal superblock v0 with soo=8, sol=8.
fn build_v0() -> Vec<u8> {
    let mut sb = vec![0u8; 96];
    sb[0..8].copy_from_slice(&HDF5_SIGNATURE);
    sb[8] = 0; // version 0
    sb[13] = 8; // size_of_offsets
    sb[14] = 8; // size_of_lengths
                // base_address at 24: 0
                // root_object_header_address at 64: 96
    sb[64..72].copy_from_slice(&96_u64.to_le_bytes());
    sb
}

#[test]
fn test_superblock_v0_parse() {
    let sb = build_v0();
    let parsed = parse(&sb).unwrap();
    assert_eq!(parsed.size_of_offsets, 8);
    assert_eq!(parsed.size_of_lengths, 8);
    assert_eq!(parsed.base_address, 0);
    assert_eq!(parsed.root_object_header_address, 96);
}

#[test]
fn test_superblock_v0_bad_signature() {
    let mut sb = build_v0();
    sb[0] = 0xFF; // corrupt signature
    assert!(matches!(parse(&sb), Err(OxiH5Error::BadSignature)));
}

#[test]
fn test_superblock_v0_too_short() {
    let sb = vec![0u8; 8];
    assert!(parse(&sb).is_err());
}

#[test]
fn test_superblock_v2_parse() {
    let soo: u8 = 8;
    let sol: u8 = 8;

    // Layout: sig(8) + version(1) + soo(1) + sol(1) + flags(1) + base(8)
    //         + ext(8) + eof(8) + root(8) + checksum(4)
    let total = 12 + 4 * soo as usize + 4;
    let mut sb = vec![0u8; total];
    sb[0..8].copy_from_slice(&HDF5_SIGNATURE);
    sb[8] = 2; // version
    sb[9] = soo;
    sb[10] = sol;
    sb[11] = 0; // file_consistency_flags

    // base_address at 12: 0 (all zeros already)
    // superblock_extension at 20: u64::MAX (undefined)
    sb[20..28].copy_from_slice(&u64::MAX.to_le_bytes());
    // eof at 28
    sb[28..36].copy_from_slice(&1024_u64.to_le_bytes());
    // root_obj_header at 36
    sb[36..44].copy_from_slice(&48_u64.to_le_bytes());
    // checksum at 44 (ignored by parser)

    let parsed = parse(&sb).unwrap();
    assert_eq!(parsed.size_of_offsets, 8);
    assert_eq!(parsed.size_of_lengths, 8);
    assert_eq!(parsed.base_address, 0);
    assert_eq!(parsed.root_object_header_address, 48);
}

#[test]
fn test_superblock_v3_parse() {
    // v3 uses identical layout to v2; only version byte differs.
    let soo: u8 = 8;
    let total = 12 + 4 * soo as usize + 4;
    let mut sb = vec![0u8; total];
    sb[0..8].copy_from_slice(&HDF5_SIGNATURE);
    sb[8] = 3; // version 3
    sb[9] = soo;
    sb[10] = soo; // sol same as soo
                  // root_obj_header at 12 + 3*8 = 36
    sb[36..44].copy_from_slice(&100_u64.to_le_bytes());

    let parsed = parse(&sb).unwrap();
    assert_eq!(parsed.size_of_offsets, 8);
    assert_eq!(parsed.root_object_header_address, 100);
}

#[test]
fn test_superblock_v2_soo4() {
    // soo=4 (32-bit offset file)
    let soo: u8 = 4;
    let total = 12 + 4 * soo as usize + 4;
    let mut sb = vec![0u8; total];
    sb[0..8].copy_from_slice(&HDF5_SIGNATURE);
    sb[8] = 2; // version 2
    sb[9] = soo;
    sb[10] = soo; // sol
                  // base_address at 12: 0 (4 bytes)
                  // ext at 16: 0xFFFFFFFF
    sb[16..20].copy_from_slice(&0xFFFF_FFFFu32.to_le_bytes());
    // eof at 20
    sb[20..24].copy_from_slice(&512_u32.to_le_bytes());
    // root at 24
    sb[24..28].copy_from_slice(&64_u32.to_le_bytes());

    let parsed = parse(&sb).unwrap();
    assert_eq!(parsed.size_of_offsets, 4);
    assert_eq!(parsed.root_object_header_address, 64);
}

#[test]
fn test_superblock_unsupported_version() {
    let mut sb = vec![0u8; 9];
    sb[0..8].copy_from_slice(&HDF5_SIGNATURE);
    sb[8] = 1; // version 1 is transitional — not supported
    assert!(matches!(
        parse(&sb),
        Err(OxiH5Error::UnsupportedSuperblock(1))
    ));
}

#[test]
fn test_superblock_v2_truncated() {
    // Too short to read root header address
    let mut sb = vec![0u8; 15]; // only has sig + version + soo + sol + flags + part of base
    sb[0..8].copy_from_slice(&HDF5_SIGNATURE);
    sb[8] = 2;
    sb[9] = 8; // soo=8 but not enough bytes
    sb[10] = 8;
    assert!(parse(&sb).is_err());
}
