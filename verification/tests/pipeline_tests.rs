//! Filter pipeline messages.

use oxih5::message::parse_filter_pipeline;
use oxih5::write::pipeline::{
    deflate_body_size, write_deflate_v1, write_deflate_v2, DEFLATE_FILTER_ID, PIPELINE_VERSION,
    V1_BODY, V2_BODY,
};
use oxih5::FilterPipeline;

/// Encode one body with each encoder and hand both to the real parser.
fn parsed(body: &[u8]) -> FilterPipeline {
    parse_filter_pipeline(body).expect("parse_filter_pipeline")
}

/// Both encoders must survive the parser.
#[test]
fn w1e_deflate_pipeline_msg_parses() {
    for (version, size, encode) in [
        (
            1u8,
            V1_BODY,
            write_deflate_v1 as fn(&mut Vec<u8>, usize, u8) -> usize,
        ),
        (2, V2_BODY, write_deflate_v2),
    ] {
        for level in [0u8, 1, 6, 9] {
            let mut buf = vec![0xEEu8; size + 8];
            assert_eq!(encode(&mut buf, 0, level), size, "v{version} body size");
            assert_eq!(buf[0], version, "v{version} version byte");
            assert!(
                buf[size..].iter().all(|&b| b == 0xEE),
                "v{version} wrote past its body"
            );

            let pipeline = parsed(&buf[..size]);
            assert_eq!(
                pipeline.filters.len(),
                1,
                "v{version} level {level}: parser saw {} filters — an unknown \
                 version parses as an *empty* pipeline with Ok, so this is \
                 the assertion that catches a wrong version byte",
                pipeline.filters.len()
            );
            let filter = &pipeline.filters[0];
            assert_eq!(filter.id, DEFLATE_FILTER_ID, "v{version} filter id");
            assert_eq!(filter.flags, 0, "v{version} flags");
            assert_eq!(
                filter.client_data,
                vec![u32::from(level)],
                "v{version} client data must be the level and nothing else"
            );
        }
    }
}

/// Version 1 names the filter; version 2 does not, for an id below 256.
#[test]
fn only_version_1_carries_the_filter_name() {
    let mut buf = vec![0u8; V1_BODY];
    write_deflate_v1(&mut buf, 0, 6);
    assert_eq!(
        parsed(&buf).filters[0].name.as_deref(),
        Some("deflate"),
        "v1 stores the name"
    );

    let mut buf = vec![0u8; V2_BODY];
    write_deflate_v2(&mut buf, 0, 6);
    assert_eq!(parsed(&buf).filters[0].name, None, "v2 omits it");
}

/// Both bodies are exact; a stray byte would move every address after the
/// message.
#[test]
fn body_sizes_are_what_the_object_header_reserves() {
    assert_eq!(V1_BODY, 32);
    assert_eq!(V2_BODY, 12);
    assert_eq!(
        deflate_body_size(),
        if PIPELINE_VERSION == 1 { 32 } else { 12 }
    );
}

/// The exact v1 byte string, so a reshuffle of the encoder shows up here
/// rather than in a file libhdf5 rejects.
#[test]
fn v1_body_is_byte_exact() {
    let mut buf = vec![0u8; V1_BODY];
    write_deflate_v1(&mut buf, 0, 6);
    let mut want = vec![0u8; V1_BODY];
    want[0] = 1; // version
    want[1] = 1; // nfilters
    want[8] = 1; // filter id = deflate (u16 LE)
    want[10] = 8; // name length
    want[14] = 1; // one client-data value
    want[16..24].copy_from_slice(b"deflate\0");
    want[24] = 6; // level (u32 LE)
    assert_eq!(buf, want);
}
