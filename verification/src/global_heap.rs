//! Global heap collections: the objects that variable-length data refers to.

use vstd::prelude::*;
use std::collections::HashMap;
use crate::bytes::{copy_range, get_u16, get_u64, has_tag, le_at, tag_at, to_usize};
use crate::error::{outcome, text, ErrorKind, OxiH5Error};

verus! {

broadcast use vstd::std_specs::hash::group_hash_axioms;

/// A parsed collection: its objects by index.
pub struct GlobalHeap {
    objects: HashMap<u16, Vec<u8>>,
}

impl View for GlobalHeap {
    type V = Map<u16, Seq<u8>>;

    closed spec fn view(&self) -> Map<u16, Seq<u8>> {
        self.objects@.map_values(|v: Vec<u8>| v@)
    }
}

/// `n` rounded up to a multiple of 8.
pub open spec fn align8(n: int) -> int {
    (n + 7) / 8 * 8
}

/// The objects from `pos` on, added to those in `found`.
///
/// An object is an index (2 bytes), a reference count (2), four reserved bytes,
/// its length (8) and its data; the next one starts at the next file position
/// that is a multiple of 8. The collection ends at index 0, or where no header
/// fits before `end` or before the end of the file. A later object replaces an
/// earlier one of the same index.
pub open spec fn objects_from(
    file: Seq<u8>,
    pos: int,
    end: int,
    found: Map<u16, Seq<u8>>,
) -> Result<Map<u16, Seq<u8>>, ErrorKind>
    decreases file.len() + 8 - pos,
{
    if pos + 16 > end || pos >= file.len() {
        Ok(found)
    } else if pos + 2 > file.len() {
        Err(ErrorKind::Format)
    } else if le_at(file, pos, 2) == 0 {
        Ok(found)
    } else if pos + 16 > file.len() {
        Err(ErrorKind::Format)
    } else {
        let index = le_at(file, pos, 2) as u16;
        let size = le_at(file, pos + 8, 8);
        let stop = pos + 16 + size;
        if stop > usize::MAX {
            Err(ErrorKind::Corrupted)
        } else if stop > file.len() {
            Err(ErrorKind::Format)
        } else {
            objects_from(
                file,
                align8(stop),
                end,
                found.insert(index, file.subrange(pos + 16, stop)),
            )
        }
    }
}

/// The objects of the collection at `addr`: `GCOL`, version 1, three reserved
/// bytes and the collection's length (8), then the objects.
pub open spec fn heap_at(file: Seq<u8>, addr: int) -> Result<Map<u16, Seq<u8>>, ErrorKind> {
    if addr + 4 > usize::MAX {
        Err(ErrorKind::Corrupted)
    } else if addr + 4 > file.len() || !tag_at(file, addr, 'G', 'C', 'O', 'L') || addr + 5
        > file.len() || file[addr + 4] != 1 {
        Err(ErrorKind::Format)
    } else if addr + 16 > usize::MAX {
        Err(ErrorKind::Corrupted)
    } else if addr + 16 > file.len() {
        Err(ErrorKind::Format)
    } else {
        let end = addr + le_at(file, addr + 8, 8);
        if end > usize::MAX {
            Err(ErrorKind::Corrupted)
        } else {
            objects_from(file, addr + 16, end, Map::empty())
        }
    }
}

/// What [`GlobalHeap::object`] gives of a collection.
pub open spec fn object_in(heap: Map<u16, Seq<u8>>, index: u16) -> Result<Seq<u8>, ErrorKind> {
    if heap.contains_key(index) {
        Ok(heap[index])
    } else {
        Err(ErrorKind::Format)
    }
}

impl GlobalHeap {
    /// Parse the collection at `collection_address`.
    pub fn parse(file_data: &[u8], collection_address: u64) -> (r: Result<GlobalHeap, OxiH5Error>)
        ensures
            outcome(r) == heap_at(file_data@, collection_address as int),
    {
        let base: usize = match to_usize(collection_address) {
            Some(base) => base,
            None => {
                return Err(
                    OxiH5Error::Corrupted(
                        text(
                            &[
                                "global heap address ",
                                &collection_address.to_string(),
                                " exceeds addressable range",
                            ],
                        ),
                    ),
                );
            },
        };
        if base > usize::MAX - 4 {
            return Err(
                OxiH5Error::Corrupted(
                    text(&["global heap address ", &collection_address.to_string(), " too large"]),
                ),
            );
        }
        if base + 4 > file_data.len() {
            return Err(OxiH5Error::Format("GlobalHeap: truncated at signature".to_string()));
        }
        if !has_tag(file_data, base, 'G', 'C', 'O', 'L') {
            return Err(OxiH5Error::Format("GlobalHeap: bad signature".to_string()));
        }
        if base + 4 >= file_data.len() {
            return Err(OxiH5Error::Format("GlobalHeap: missing version".to_string()));
        }
        let version: u8 = file_data[base + 4];
        if version != 1 {
            return Err(
                OxiH5Error::Format(
                    text(&["GlobalHeap: unsupported version ", &version.to_string()]),
                ),
            );
        }
        if base > usize::MAX - 16 {
            return Err(OxiH5Error::Corrupted("GlobalHeap: base+16 overflows".to_string()));
        }
        if base + 16 > file_data.len() {
            return Err(OxiH5Error::Format("GlobalHeap: truncated at size".to_string()));
        }
        let size_raw: u64 = get_u64(file_data, base + 8);
        let end: usize = match to_usize(size_raw) {
            Some(size) if size <= usize::MAX - base => base + size,
            _ => {
                return Err(
                    OxiH5Error::Corrupted(
                        text(
                            &[
                                "GlobalHeap: base+collection_size overflows: ",
                                &base.to_string(),
                                "+",
                                &size_raw.to_string(),
                            ],
                        ),
                    ),
                );
            },
        };
        let mut heap = GlobalHeap { objects: HashMap::new() };
        let mut pos: usize = base + 16;
        proof {
            assert(heap@ =~= Map::empty());
        }
        let ghost wanted = objects_from(file_data@, pos as int, end as int, Map::empty());
        while pos <= usize::MAX - 16 && pos + 16 <= end && pos < file_data.len()
            invariant_except_break
                objects_from(file_data@, pos as int, end as int, heap@) == wanted,
            invariant
                end <= usize::MAX,
                file_data@.len() <= usize::MAX,
                wanted == heap_at(file_data@, collection_address as int),
            ensures
                wanted == Ok::<Map<u16, Seq<u8>>, ErrorKind>(heap@),
            decreases file_data@.len() + 8 - pos,
        {
            if pos + 2 > file_data.len() {
                return Err(OxiH5Error::Format("GlobalHeap: object index".to_string()));
            }
            let index: u16 = get_u16(file_data, pos);
            if index == 0 {
                break;
            }
            if pos + 16 > file_data.len() {
                return Err(OxiH5Error::Format("GlobalHeap: object size".to_string()));
            }
            let object_size: u64 = get_u64(file_data, pos + 8);
            let start: usize = pos + 16;
            let stop: usize = match to_usize(object_size) {
                Some(size) if size <= usize::MAX - start => start + size,
                _ => {
                    return Err(
                        OxiH5Error::Corrupted(
                            text(
                                &[
                                    "GlobalHeap: object ",
                                    &index.to_string(),
                                    " data overflows: pos=",
                                    &start.to_string(),
                                    " size=",
                                    &object_size.to_string(),
                                ],
                            ),
                        ),
                    );
                },
            };
            if stop > file_data.len() {
                return Err(
                    OxiH5Error::Format(
                        text(
                            &["GlobalHeap: object ", &index.to_string(), " data truncated"],
                        ),
                    ),
                );
            }
            let ghost before = heap@;
            heap.objects.insert(index, copy_range(file_data, start, stop));
            proof {
                assert(heap@ =~= before.insert(
                    index,
                    file_data@.subrange(start as int, stop as int),
                ));
            }
            if stop > usize::MAX - 7 {
                proof {
                    assert(objects_from(file_data@, align8(stop as int), end as int, heap@) == Ok::<
                        Map<u16, Seq<u8>>,
                        ErrorKind,
                    >(heap@));
                }
                break;
            }
            pos = (stop + 7) / 8 * 8;
        }
        Ok(heap)
    }

    /// The data of the object with the given index.
    pub fn object(&self, index: u16) -> (r: Result<&[u8], OxiH5Error>)
        ensures
            outcome(r) == object_in(self@, index),
    {
        match self.objects.get(&index) {
            Some(data) => Ok(data.as_slice()),
            None => Err(
                OxiH5Error::Format(text(&["GlobalHeap: object ", &index.to_string(), " not found"])),
            ),
        }
    }
}

} // verus!
