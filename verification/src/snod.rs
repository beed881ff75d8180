//! Symbol table nodes: the members of a group that one B-tree leaf points at.

use vstd::prelude::*;
use crate::bytes::{has_tag, le_at, tag_at, to_usize};
use crate::error::{outcome, text, ErrorKind, OxiH5Error};
use crate::superblock::{read_u16_le, read_u64_le};

verus! {

/// One symbol table entry.
#[derive(Debug, Clone, Copy)]
pub struct SymTabEntry {
    /// Where the entry's name starts in the group's local heap.
    pub name_offset: u64,
    /// File address of the object's header.
    pub object_header_address: u64,
}

/// Size of one entry: name offset (8), object header address (8), cache type
/// (4), reserved (4), scratch pad (16).
pub const STE_SIZE: usize = 40;

/// The entry at `pos`.
pub open spec fn entry_at(file: Seq<u8>, pos: int) -> SymTabEntry {
    SymTabEntry {
        name_offset: le_at(file, pos, 8) as u64,
        object_header_address: le_at(file, pos + 8, 8) as u64,
    }
}

/// The entries of the node at `addr`: `SNOD`, version 1, the number of entries
/// at 6, the entries themselves from 8 on.
pub open spec fn symbols_at(file: Seq<u8>, addr: int) -> Result<Seq<SymTabEntry>, ErrorKind> {
    if addr + 8 > usize::MAX {
        Err(ErrorKind::Corrupted)
    } else if addr + 8 > file.len() || !tag_at(file, addr, 'S', 'N', 'O', 'D') || file[addr + 4]
        != 1 {
        Err(ErrorKind::Format)
    } else {
        let n = le_at(file, addr + 6, 2);
        if addr + 8 + n * STE_SIZE > usize::MAX {
            Err(ErrorKind::Corrupted)
        } else if addr + 8 + n * STE_SIZE > file.len() {
            Err(ErrorKind::Format)
        } else {
            Ok(Seq::new(n, |i: int| entry_at(file, addr + 8 + i * STE_SIZE)))
        }
    }
}

/// Parse all entries of the node at `snod_address`.
pub fn parse(file_data: &[u8], snod_address: u64) -> (r: Result<Vec<SymTabEntry>, OxiH5Error>)
    ensures
        outcome(r) == symbols_at(file_data@, snod_address as int),
{
    let off: usize = match to_usize(snod_address) {
        Some(off) => off,
        None => {
            return Err(
                OxiH5Error::Corrupted(
                    text(
                        &["SNOD address ", &snod_address.to_string(), " exceeds addressable range"],
                    ),
                ),
            );
        },
    };
    if off > usize::MAX - 8 {
        return Err(
            OxiH5Error::Corrupted(text(&["SNOD address ", &snod_address.to_string(), " too large"])),
        );
    }
    if off + 8 > file_data.len() {
        return Err(
            OxiH5Error::Format(
                text(&["SNOD at ", &snod_address.to_string(), ": header out of bounds"]),
            ),
        );
    }
    if !has_tag(file_data, off, 'S', 'N', 'O', 'D') {
        return Err(
            OxiH5Error::Format(text(&["no SNOD signature at ", &snod_address.to_string()])),
        );
    }
    let version: u8 = file_data[off + 4];
    if version != 1 {
        return Err(
            OxiH5Error::Format(text(&["unsupported SNOD version: ", &version.to_string()])),
        );
    }
    let num_symbols: usize = read_u16_le(file_data, off + 6)? as usize;
    let start: usize = off + 8;
    if num_symbols * STE_SIZE > usize::MAX - start {
        return Err(
            OxiH5Error::Corrupted(
                text(&["SNOD at ", &snod_address.to_string(), ": entries overflow"]),
            ),
        );
    }
    if start + num_symbols * STE_SIZE > file_data.len() {
        return Err(
            OxiH5Error::Format(
                text(
                    &[
                        "SNOD at ",
                        &snod_address.to_string(),
                        ": ",
                        &num_symbols.to_string(),
                        " entries do not fit in the file",
                    ],
                ),
            ),
        );
    }
    let mut entries: Vec<SymTabEntry> = Vec::new();
    for i in 0..num_symbols
        invariant
            start == off + 8,
            start + num_symbols * STE_SIZE <= file_data@.len() <= usize::MAX,
            entries@ == Seq::new(
                i as nat,
                |k: int| entry_at(file_data@, off + 8 + k * STE_SIZE),
            ),
    {
        assert(i * 40 + 40 <= num_symbols * 40);
        let e: usize = start + i * STE_SIZE;
        let name_offset: u64 = read_u64_le(file_data, e)?;
        let object_header_address: u64 = read_u64_le(file_data, e + 8)?;
        entries.push(SymTabEntry { name_offset, object_header_address });
        proof {
            assert(entries@ =~= Seq::new(
                (i + 1) as nat,
                |k: int| entry_at(file_data@, off + 8 + k * STE_SIZE),
            ));
        }
    }
    Ok(entries)
}

} // verus!
