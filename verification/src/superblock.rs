//! The superblock at the start of a file: where the root group is.

use vstd::prelude::*;
use crate::bytes::{get_u16, get_u32, get_u64, le_at};
use crate::error::{outcome, text, ErrorKind, OxiH5Error};

verus! {

/// The eight bytes that open every file.
pub open spec fn signature() -> Seq<u8> {
    seq![0x89u8, 0x48u8, 0x44u8, 0x46u8, 0x0du8, 0x0au8, 0x1au8, 0x0au8]
}

/// The superblock fields that navigation needs.
#[derive(Debug, Clone, Copy)]
pub struct Superblock {
    pub size_of_offsets: u8,
    pub size_of_lengths: u8,
    pub base_address: u64,
    pub root_object_header_address: u64,
}

impl View for Superblock {
    type V = Superblock;

    open spec fn view(&self) -> Superblock {
        *self
    }
}

/// What [`read_offset_at`] reads.
pub open spec fn offset_at(data: Seq<u8>, pos: int, size: int) -> Result<u64, ErrorKind> {
    if pos + size <= data.len() && (size == 1 || size == 2 || size == 4 || size == 8) {
        Ok(le_at(data, pos, size as nat) as u64)
    } else {
        Err(ErrorKind::Format)
    }
}

/// A version 0 superblock: 96 bytes, eight-byte offsets and lengths, the base
/// address at 24 and the root group's object header address at 64.
pub open spec fn superblock_v0(data: Seq<u8>) -> Result<Superblock, ErrorKind> {
    if data.len() < 96 || data[13] != 8 || data[14] != 8 {
        Err(ErrorKind::Format)
    } else {
        Ok(
            Superblock {
                size_of_offsets: 8,
                size_of_lengths: 8,
                base_address: le_at(data, 24, 8) as u64,
                root_object_header_address: le_at(data, 64, 8) as u64,
            },
        )
    }
}

/// A version 2 or 3 superblock: four addresses of `data[9]` bytes each from 12
/// on, the first the base address, the last the root group's object header.
pub open spec fn superblock_v2(data: Seq<u8>) -> Result<Superblock, ErrorKind> {
    if data.len() < 13 {
        Err(ErrorKind::Format)
    } else {
        let soo = data[9] as int;
        match (offset_at(data, 12, soo), offset_at(data, 12 + 3 * soo, soo)) {
            (Ok(base), Ok(root)) => Ok(
                Superblock {
                    size_of_offsets: data[9],
                    size_of_lengths: data[10],
                    base_address: base,
                    root_object_header_address: root,
                },
            ),
            _ => Err(ErrorKind::Format),
        }
    }
}

/// The superblock that a file opens with.
pub open spec fn superblock_of(data: Seq<u8>) -> Result<Superblock, ErrorKind> {
    if data.len() < 9 {
        Err(ErrorKind::Format)
    } else if data.subrange(0, 8) != signature() {
        Err(ErrorKind::BadSignature)
    } else if data[8] == 0 {
        superblock_v0(data)
    } else if data[8] == 2 || data[8] == 3 {
        superblock_v2(data)
    } else {
        Err(ErrorKind::UnsupportedSuperblock(data[8]))
    }
}

/// Whether `data` opens with the file signature.
fn has_signature(data: &[u8]) -> (r: bool)
    requires
        data@.len() >= 8,
    ensures
        r == (data@.subrange(0, 8) == signature()),
{
    let r = data[0] == 0x89 && data[1] == 0x48 && data[2] == 0x44 && data[3] == 0x46 && data[4]
        == 0x0d && data[5] == 0x0a && data[6] == 0x1a && data[7] == 0x0a;
    proof {
        let s = data@.subrange(0, 8);
        assert(s[0] == data@[0] && s[1] == data@[1] && s[2] == data@[2] && s[3] == data@[3] && s[4]
            == data@[4] && s[5] == data@[5] && s[6] == data@[6] && s[7] == data@[7]);
        if r {
            assert(s =~= signature());
        }
    }
    r
}

/// Parse the superblock at the beginning of `data`.
pub fn parse(data: &[u8]) -> (r: Result<Superblock, OxiH5Error>)
    ensures
        outcome(r) == superblock_of(data@),
{
    if data.len() < 9 {
        return Err(OxiH5Error::Format(text(&["file too short for superblock: ", &data.len().to_string(), " bytes"])));
    }
    if !has_signature(data) {
        return Err(OxiH5Error::BadSignature);
    }
    let version: u8 = data[8];
    match version {
        0 => parse_v0(data),
        2 | 3 => parse_v2(data),
        other => Err(OxiH5Error::UnsupportedSuperblock(other)),
    }
}

fn parse_v0(data: &[u8]) -> (r: Result<Superblock, OxiH5Error>)
    ensures
        outcome(r) == superblock_v0(data@),
{
    if data.len() < 96 {
        return Err(OxiH5Error::Format(text(&["file too short for superblock v0: ", &data.len().to_string(), " bytes"])));
    }
    let size_of_offsets: u8 = data[13];
    let size_of_lengths: u8 = data[14];
    if size_of_offsets != 8 || size_of_lengths != 8 {
        return Err(OxiH5Error::Format(text(&["superblock v0: requires soo=8/sol=8, got soo=", &size_of_offsets.to_string(), "/sol=", &size_of_lengths.to_string()])));
    }
    let base_address: u64 = read_u64_le(data, 24)?;
    let root_object_header_address: u64 = read_u64_le(data, 64)?;
    Ok(Superblock { size_of_offsets, size_of_lengths, base_address, root_object_header_address })
}

fn parse_v2(data: &[u8]) -> (r: Result<Superblock, OxiH5Error>)
    ensures
        outcome(r) == superblock_v2(data@),
{
    if data.len() < 13 {
        return Err(OxiH5Error::Format(text(&["file too short for superblock v2/v3: ", &data.len().to_string(), " bytes"])));
    }
    let size_of_offsets: u8 = data[9];
    let size_of_lengths: u8 = data[10];
    let soo: usize = size_of_offsets as usize;
    let base_address: u64 = read_offset_at(data, 12, soo)?;
    let root_object_header_address: u64 = read_offset_at(data, 12 + 3 * soo, soo)?;
    Ok(Superblock { size_of_offsets, size_of_lengths, base_address, root_object_header_address })
}

/// Read an unsigned little-endian integer of 1, 2, 4 or 8 bytes at `pos`.
pub(crate) fn read_offset_at(data: &[u8], pos: usize, size: usize) -> (r: Result<u64, OxiH5Error>)
    requires
        pos + size <= usize::MAX,
    ensures
        outcome(r) == offset_at(data@, pos as int, size as int),
{
    if pos + size > data.len() {
        return Err(OxiH5Error::Format(text(&["superblock: offset read at pos=", &pos.to_string(), " size=", &size.to_string(), " out of bounds (data len=", &data.len().to_string(), ")"])));
    }
    proof {
        reveal_with_fuel(le_at, 2);
        crate::bytes::lemma_le_at_bound(data@, pos as int, size as nat);
    }
    match size {
        1 => Ok(data[pos] as u64),
        2 => Ok(get_u16(data, pos) as u64),
        4 => Ok(get_u32(data, pos) as u64),
        8 => Ok(get_u64(data, pos)),
        _ => Err(OxiH5Error::Format(text(&["superblock: unsupported offset size ", &size.to_string()]))),
    }
}

/// What a bounds-checked read of `n` bytes at `pos` gives.
pub open spec fn checked_le(data: Seq<u8>, pos: int, n: nat) -> Result<nat, ErrorKind> {
    if pos + n <= data.len() {
        Ok(le_at(data, pos, n))
    } else {
        Err(ErrorKind::Format)
    }
}

/// Read a little-endian `u64` at `offset`.
pub fn read_u64_le(data: &[u8], offset: usize) -> (r: Result<u64, OxiH5Error>)
    ensures
        match checked_le(data@, offset as int, 8) {
            Ok(v) => r is Ok && r->Ok_0 == v,
            Err(kind) => r is Err && r->Err_0@ == kind,
        },
{
    if data.len() < 8 || offset > data.len() - 8 {
        return Err(
            OxiH5Error::Format(
                text(
                    &[
                        "read_u64_le: offset ",
                        &offset.to_string(),
                        " out of bounds (len=",
                        &data.len().to_string(),
                        ")",
                    ],
                ),
            ),
        );
    }
    Ok(get_u64(data, offset))
}

/// Read a little-endian `u32` at `offset`.
pub fn read_u32_le(data: &[u8], offset: usize) -> (r: Result<u32, OxiH5Error>)
    ensures
        match checked_le(data@, offset as int, 4) {
            Ok(v) => r is Ok && r->Ok_0 == v,
            Err(kind) => r is Err && r->Err_0@ == kind,
        },
{
    if data.len() < 4 || offset > data.len() - 4 {
        return Err(
            OxiH5Error::Format(
                text(
                    &[
                        "read_u32_le: offset ",
                        &offset.to_string(),
                        " out of bounds (len=",
                        &data.len().to_string(),
                        ")",
                    ],
                ),
            ),
        );
    }
    Ok(get_u32(data, offset))
}

/// Read a little-endian `u16` at `offset`.
pub fn read_u16_le(data: &[u8], offset: usize) -> (r: Result<u16, OxiH5Error>)
    ensures
        match checked_le(data@, offset as int, 2) {
            Ok(v) => r is Ok && r->Ok_0 == v,
            Err(kind) => r is Err && r->Err_0@ == kind,
        },
{
    if data.len() < 2 || offset > data.len() - 2 {
        return Err(
            OxiH5Error::Format(
                text(
                    &[
                        "read_u16_le: offset ",
                        &offset.to_string(),
                        " out of bounds (len=",
                        &data.len().to_string(),
                        ")",
                    ],
                ),
            ),
        );
    }
    Ok(get_u16(data, offset))
}

} // verus!
