//! The filter pipeline message.
//!
//! It names the filters that the chunks of a dataset passed through. Version 1
//! gives the filter's name and pads the client data to a multiple of 8 bytes;
//! version 2 leaves out both for the filters that the format defines.

use vstd::prelude::*;
use crate::bytes::{
    le_bytes, lemma_le_bytes_len, push_all, push_le, push_zeros, put, put_bytes, zeros,
};

verus! {

/// The number of the DEFLATE filter.
pub const DEFLATE_FILTER_ID: u16 = 1;

/// The version of the message that is written.
pub const PIPELINE_VERSION: u8 = 1;

/// Size of a version 1 message with one filter.
pub const V1_BODY: usize = 32;

/// Size of a version 2 message with one filter.
pub const V2_BODY: usize = 12;

/// `deflate` and a zero byte.
pub open spec fn deflate_name() -> Seq<u8> {
    seq![
        'd' as u8,
        'e' as u8,
        'f' as u8,
        'l' as u8,
        'a' as u8,
        't' as u8,
        'e' as u8,
        0u8,
    ]
}

/// Version 1: the version, the number of filters and six reserved bytes; then the
/// filter's number, the length of its name, its flags and the number of its client
/// values; its name; the level and four bytes of padding.
pub open spec fn deflate_v1_image(level: u8) -> Seq<u8> {
    seq![1u8, 1u8] + zeros(6) + le_bytes(1, 2) + le_bytes(8, 2) + le_bytes(0, 2) + le_bytes(1, 2)
        + deflate_name() + le_bytes(level as nat, 4) + zeros(4)
}

/// Version 2: the version and the number of filters; then the filter's number, its
/// flags, the number of its client values and the level.
pub open spec fn deflate_v2_image(level: u8) -> Seq<u8> {
    seq![2u8, 1u8] + le_bytes(1, 2) + le_bytes(0, 2) + le_bytes(1, 2) + le_bytes(level as nat, 4)
}

/// The message that is written.
pub open spec fn deflate_image(level: u8) -> Seq<u8> {
    if PIPELINE_VERSION == 1 {
        deflate_v1_image(level)
    } else {
        deflate_v2_image(level)
    }
}

/// The messages are as long as is set aside for them.
pub proof fn law_deflate_body_sizes(level: u8)
    ensures
        deflate_v1_image(level).len() == V1_BODY,
        deflate_v2_image(level).len() == V2_BODY,
{
    lemma_le_bytes_len(0, 2);
    lemma_le_bytes_len(1, 2);
    lemma_le_bytes_len(8, 2);
    lemma_le_bytes_len(level as nat, 4);
}

/// Size of the message that is written.
pub fn deflate_body_size() -> (r: usize)
    ensures
        r == if PIPELINE_VERSION == 1 {
            V1_BODY
        } else {
            V2_BODY
        },
{
    if PIPELINE_VERSION == 1 {
        V1_BODY
    } else {
        V2_BODY
    }
}

/// Write the message of a DEFLATE filter at `start`; returns the number of bytes.
pub fn write_deflate_body(buf: &mut Vec<u8>, start: usize, level: u8) -> (r: usize)
    requires
        start + 32 <= old(buf)@.len(),
    ensures
        r == deflate_image(level).len(),
        final(buf)@ == put(old(buf)@, start as int, deflate_image(level)),
{
    proof {
        law_deflate_body_sizes(level);
    }
    if PIPELINE_VERSION == 1 {
        write_deflate_v1(buf, start, level)
    } else {
        write_deflate_v2(buf, start, level)
    }
}

/// Write a version 1 message; returns the number of bytes.
pub fn write_deflate_v1(buf: &mut Vec<u8>, start: usize, level: u8) -> (r: usize)
    requires
        start + 32 <= old(buf)@.len(),
    ensures
        r == 32,
        final(buf)@ == put(old(buf)@, start as int, deflate_v1_image(level)),
{
    let name: Vec<u8> = vec![0x64u8, 0x65, 0x66, 0x6c, 0x61, 0x74, 0x65, 0];
    let mut body: Vec<u8> = vec![1u8, 1];
    proof {
        assert('d' as u8 == 0x64 && 'e' as u8 == 0x65 && 'f' as u8 == 0x66 && 'l' as u8 == 0x6c
            && 'a' as u8 == 0x61 && 't' as u8 == 0x74);
        assert(name@ =~= deflate_name());
        assert(body@ =~= seq![1u8, 1u8]);
        law_deflate_body_sizes(level);
    }
    push_zeros(&mut body, 6);
    push_le(&mut body, 1, 2);
    push_le(&mut body, 8, 2);
    push_le(&mut body, 0, 2);
    push_le(&mut body, 1, 2);
    push_all(&mut body, &name);
    push_le(&mut body, level as u64, 4);
    push_zeros(&mut body, 4);
    put_bytes(buf, start, &body);
    V1_BODY
}

/// Write a version 2 message; returns the number of bytes.
pub fn write_deflate_v2(buf: &mut Vec<u8>, start: usize, level: u8) -> (r: usize)
    requires
        start + 12 <= old(buf)@.len(),
    ensures
        r == 12,
        final(buf)@ == put(old(buf)@, start as int, deflate_v2_image(level)),
{
    let mut body: Vec<u8> = vec![2u8, 1];
    proof {
        assert(body@ =~= seq![2u8, 1u8]);
        law_deflate_body_sizes(level);
    }
    push_le(&mut body, 1, 2);
    push_le(&mut body, 0, 2);
    push_le(&mut body, 1, 2);
    push_le(&mut body, level as u64, 4);
    put_bytes(buf, start, &body);
    V2_BODY
}

} // verus!
