//! Local heaps: the NUL-terminated names of a group's members.

use vstd::prelude::*;
use vstd::slice::slice_subrange;
use crate::bytes::{copy_range, has_tag, le_at, tag_at, to_usize};
use crate::error::{outcome, text, ErrorKind, OxiH5Error};
use crate::superblock::read_u64_le;
use crate::utf8::{as_text, find_nul, nul_from, utf8_text};

verus! {

/// A parsed local heap: the bytes of its data segment.
pub struct LocalHeap {
    pub data: Vec<u8>,
}

impl View for LocalHeap {
    type V = Seq<u8>;

    open spec fn view(&self) -> Seq<u8> {
        self.data@
    }
}

/// The text of `data` from `offset` up to the next zero byte.
pub open spec fn name_in(data: Seq<u8>, offset: int) -> Result<Seq<char>, ErrorKind> {
    let end = nul_from(data, offset);
    if offset >= data.len() || end >= data.len() {
        Err(ErrorKind::Format)
    } else {
        match utf8_text(data.subrange(offset, end)) {
            Some(chars) => Ok(chars),
            None => Err(ErrorKind::Format),
        }
    }
}

impl LocalHeap {
    /// The NUL-terminated name at `offset` bytes into the data segment.
    pub fn name_at(&self, offset: usize) -> (r: Result<&str, OxiH5Error>)
        ensures
            outcome(r) == name_in(self@, offset as int),
    {
        if offset >= self.data.len() {
            return Err(
                OxiH5Error::Format(
                    text(
                        &[
                            "heap name_at: offset ",
                            &offset.to_string(),
                            " >= data segment length ",
                            &self.data.len().to_string(),
                        ],
                    ),
                ),
            );
        }
        let end: usize = find_nul(&self.data, offset);
        if end == self.data.len() {
            return Err(
                OxiH5Error::Format(
                    text(&["heap name_at: no NUL terminator at offset ", &offset.to_string()]),
                ),
            );
        }
        match as_text(slice_subrange(&self.data, offset, end)) {
            Some(name) => Ok(name),
            None => Err(
                OxiH5Error::Format(
                    text(&["heap name not valid UTF-8 at offset ", &offset.to_string()]),
                ),
            ),
        }
    }
}

/// The data segment of the local heap whose header is at `addr`: 32 bytes that
/// open with `HEAP` and version 0, the segment's size at 8 and its address at 24.
pub open spec fn local_heap_at(file: Seq<u8>, addr: int) -> Result<Seq<u8>, ErrorKind> {
    if addr + 32 > usize::MAX {
        Err(ErrorKind::Corrupted)
    } else if addr + 32 > file.len() || !tag_at(file, addr, 'H', 'E', 'A', 'P') || file[addr
        + 4] != 0 {
        Err(ErrorKind::Format)
    } else {
        let size = le_at(file, addr + 8, 8) as int;
        let at = le_at(file, addr + 24, 8) as int;
        if size > usize::MAX || at > usize::MAX || at + size > usize::MAX {
            Err(ErrorKind::Corrupted)
        } else if at + size > file.len() {
            Err(ErrorKind::Format)
        } else {
            Ok(file.subrange(at, at + size))
        }
    }
}

/// Parse the local heap at `heap_address`.
pub fn parse(file_data: &[u8], heap_address: u64) -> (r: Result<LocalHeap, OxiH5Error>)
    ensures
        outcome(r) == local_heap_at(file_data@, heap_address as int),
{
    let off: usize = match to_usize(heap_address) {
        Some(off) => off,
        None => {
            return Err(
                OxiH5Error::Corrupted(
                    text(
                        &["heap address ", &heap_address.to_string(), " exceeds addressable range"],
                    ),
                ),
            );
        },
    };
    if off > usize::MAX - 32 {
        return Err(
            OxiH5Error::Corrupted(text(&["heap address ", &heap_address.to_string(), " too large"])),
        );
    }
    if off + 32 > file_data.len() {
        return Err(
            OxiH5Error::Format(
                text(&["heap at ", &heap_address.to_string(), ": header out of bounds"]),
            ),
        );
    }
    if !has_tag(file_data, off, 'H', 'E', 'A', 'P') {
        return Err(
            OxiH5Error::Format(text(&["no HEAP signature at ", &heap_address.to_string()])),
        );
    }
    let version: u8 = file_data[off + 4];
    if version != 0 {
        return Err(
            OxiH5Error::Format(text(&["unsupported local heap version: ", &version.to_string()])),
        );
    }
    let size_raw: u64 = read_u64_le(file_data, off + 8)?;
    let at_raw: u64 = read_u64_le(file_data, off + 24)?;
    match (to_usize(size_raw), to_usize(at_raw)) {
        (Some(size), Some(at)) if at <= usize::MAX - size => {
            if at + size > file_data.len() {
                return Err(
                    OxiH5Error::Format(
                        text(
                            &[
                                "heap data segment at ",
                                &at.to_string(),
                                "+",
                                &size.to_string(),
                                " out of bounds (file len=",
                                &file_data.len().to_string(),
                                ")",
                            ],
                        ),
                    ),
                );
            }
            Ok(LocalHeap { data: copy_range(file_data, at, at + size) })
        },
        _ => Err(
            OxiH5Error::Corrupted(
                text(
                    &[
                        "heap data segment address+size overflows: ",
                        &at_raw.to_string(),
                        "+",
                        &size_raw.to_string(),
                    ],
                ),
            ),
        ),
    }
}

} // verus!
