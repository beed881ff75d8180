//! Version 1 B-trees over chunks.
//!
//! A node is `TREE`, the node type 1, its level, the number of entries (2 bytes),
//! the addresses of its siblings (8 each), and then the entries: a key and the
//! address of a child (8). A key is the stored size of a chunk (4), its filter
//! mask (4), and its position, one coordinate (8) per dimension and one more that
//! is not used. The children of a node of level 0 are chunks; those of another
//! node are nodes of a lower level.

use vstd::prelude::*;
use crate::bytes::{get_u16, get_u32, get_u64, has_tag, le_at, tag_at, to_usize};
use crate::chunk_record::{ChunkRecord, RecordModel};
use crate::dtype::views;
use crate::error::{outcomes, text, ErrorKind, OxiH5Error};

verus! {

/// Size of a key.
pub open spec fn key_size(ndims: nat) -> nat {
    8 + (ndims + 1) * 8
}

/// Where entry `i` of the node at `addr` starts.
pub open spec fn entry_pos(addr: int, ndims: nat, i: int) -> int {
    addr + 24 + i * (key_size(ndims) + 8)
}

/// The record in entry `i` of the leaf at `addr`.
pub open spec fn leaf_record(file: Seq<u8>, addr: int, ndims: nat, i: int) -> RecordModel {
    let pos = entry_pos(addr, ndims, i);
    RecordModel {
        address: le_at(file, pos + key_size(ndims), 8) as u64,
        size: le_at(file, pos, 4) as u32,
        filter_mask: le_at(file, pos + 4, 4) as u32,
        offsets: Seq::new(ndims, |d: int| le_at(file, pos + 8 + d * 8, 8) as u64),
    }
}

/// The records under the node at `addr`, whose level must be below `limit`.
pub open spec fn node_records(file: Seq<u8>, addr: int, ndims: nat, limit: nat) -> Result<
    Seq<RecordModel>,
    ErrorKind,
>
    decreases limit, 65536nat,
{
    if addr + 24 > file.len() || !tag_at(file, addr, 'T', 'R', 'E', 'E') || file[addr + 4] != 1
        || file[addr + 5] >= limit {
        Err(ErrorKind::Format)
    } else {
        let n = le_at(file, addr + 6, 2) as u16;
        if entry_pos(addr, ndims, n as int) > file.len() {
            Err(ErrorKind::Format)
        } else {
            entry_records(file, addr, ndims, file[addr + 5] as nat, n as nat)
        }
    }
}

/// The records under the first `k` entries of the node at `addr`.
pub open spec fn entry_records(
    file: Seq<u8>,
    addr: int,
    ndims: nat,
    level: nat,
    k: nat,
) -> Result<Seq<RecordModel>, ErrorKind>
    decreases level + 1, k,
{
    if k == 0 {
        Ok(Seq::empty())
    } else {
        match entry_records(file, addr, ndims, level, (k - 1) as nat) {
            Err(kind) => Err(kind),
            Ok(found) => if level == 0 {
                Ok(found.push(leaf_record(file, addr, ndims, k - 1)))
            } else {
                let child = le_at(file, entry_pos(addr, ndims, k - 1) + key_size(ndims), 8) as u64;
                match node_records(file, child as int, ndims, level) {
                    Err(kind) => Err(kind),
                    Ok(more) => Ok(found + more),
                }
            },
        }
    }
}

/// The records of the tree whose root is at `addr`; none where no root was
/// allocated.
pub open spec fn tree_records(file: Seq<u8>, addr: u64, ndims: nat) -> Result<
    Seq<RecordModel>,
    ErrorKind,
> {
    if addr == u64::MAX {
        Ok(Seq::empty())
    } else {
        node_records(file, addr as int, ndims, 256)
    }
}

/// An error under the first entries is the error of the node.
proof fn lemma_entries_fail(file: Seq<u8>, addr: int, ndims: nat, level: nat, i: nat, k: nat)
    requires
        i <= k,
        entry_records(file, addr, ndims, level, i) is Err,
    ensures
        entry_records(file, addr, ndims, level, k) == entry_records(file, addr, ndims, level, i),
    decreases k,
{
    if i < k {
        lemma_entries_fail(file, addr, ndims, level, i, (k - 1) as nat);
    }
}

/// Parse the tree whose root is at `index_address`.
pub fn parse(file_data: &[u8], index_address: u64, ndims: usize) -> (r: Result<
    Vec<ChunkRecord>,
    OxiH5Error,
>)
    ensures
        outcomes(r) == tree_records(file_data@, index_address, ndims as nat),
{
    if index_address == u64::MAX {
        let none: Vec<ChunkRecord> = Vec::new();
        proof {
            assert(views(none@) =~= Seq::empty());
        }
        return Ok(none);
    }
    parse_node(file_data, index_address, ndims, 256)
}

/// Parse the node at `addr`, whose level must be below `limit`.
fn parse_node(file_data: &[u8], addr: u64, ndims: usize, limit: u16) -> (r: Result<
    Vec<ChunkRecord>,
    OxiH5Error,
>)
    ensures
        outcomes(r) == node_records(file_data@, addr as int, ndims as nat, limit as nat),
    decreases limit,
{
    assert(file_data.len() <= usize::MAX);
    let base: usize = match to_usize(addr) {
        Some(base) => base,
        None => {
            return Err(OxiH5Error::Format("B-tree v1: address overflow".to_string()));
        },
    };
    if file_data.len() < 24 || base > file_data.len() - 24 {
        return Err(
            OxiH5Error::Format(text(&["B-tree v1 node at ", &base.to_string(), " truncated"])),
        );
    }
    if !has_tag(file_data, base, 'T', 'R', 'E', 'E') || file_data[base + 4] != 1 {
        return Err(
            OxiH5Error::Format(text(&["B-tree v1: no chunk node at ", &base.to_string()])),
        );
    }
    let level: u8 = file_data[base + 5];
    if level as u16 >= limit {
        return Err(
            OxiH5Error::Format(text(&["B-tree v1: levels do not descend at ", &base.to_string()])),
        );
    }
    let n: usize = get_u16(file_data, base + 6) as usize;
    let room: usize = file_data.len() - base - 24;
    let ghost width = key_size(ndims as nat) + 8;
    let ghost start = base + 24;
    if n > 0 && ndims > room / 8 {
        proof {
            assert(n * width >= width) by (nonlinear_arith)
                requires
                    n >= 1,
                    width >= 0,
            ;
        }
        return Err(OxiH5Error::Format("B-tree v1: entries truncated".to_string()));
    }
    let mut records: Vec<ChunkRecord> = Vec::new();
    proof {
        assert(views(records@) =~= Seq::empty());
        assert(0 * width == 0);
        assert(entry_pos(base as int, ndims as nat, 0) == start);
    }
    if n > 0 {
        let width: usize = 24 + ndims * 8;
        match n.checked_mul(width) {
            Some(needed) => {
                if needed > room {
                    return Err(OxiH5Error::Format("B-tree v1: entries truncated".to_string()));
                }
            },
            None => {
                return Err(OxiH5Error::Format("B-tree v1: entries truncated".to_string()));
            },
        }
        for i in 0..n
            invariant
                width == 24 + ndims * 8,
                width == key_size(ndims as nat) + 8,
                base + 24 + n * width <= file_data@.len() <= usize::MAX,
                level < limit,
                entry_records(
                    file_data@,
                    base as int,
                    ndims as nat,
                    level as nat,
                    i as nat,
                ) == Ok::<Seq<RecordModel>, ErrorKind>(views(records@)),
                node_records(file_data@, addr as int, ndims as nat, limit as nat) == entry_records(
                    file_data@,
                    base as int,
                    ndims as nat,
                    level as nat,
                    n as nat,
                ),
        {
            let ghost before = views(records@);
            proof {
                assert(i * width + width <= n * width) by (nonlinear_arith)
                    requires
                        i + 1 <= n,
                ;
                assert(0 <= i * width) by (nonlinear_arith);
            }
            let pos: usize = base + 24 + i * width;
            let child: u64 = get_u64(file_data, pos + width - 8);
            if level == 0 {
                let record = parse_record(file_data, pos, ndims, child);
                records.push(record);
                proof {
                    assert(record@ == leaf_record(
                        file_data@,
                        base as int,
                        ndims as nat,
                        i as int,
                    ));
                    assert(views(records@) =~= before.push(record@));
                }
            } else {
                match parse_node(file_data, child, ndims, level as u16) {
                    Ok(mut more) => {
                        let ghost new = views(more@);
                        records.append(&mut more);
                        proof {
                            assert(views(records@) =~= before + new);
                        }
                    },
                    Err(e) => {
                        proof {
                            lemma_entries_fail(
                                file_data@,
                                base as int,
                                ndims as nat,
                                level as nat,
                                (i + 1) as nat,
                                n as nat,
                            );
                        }
                        return Err(e);
                    },
                }
            }
        }
    }
    Ok(records)
}

/// Parse the key at `pos` of a chunk stored at `address`.
fn parse_record(file_data: &[u8], pos: usize, ndims: usize, address: u64) -> (r: ChunkRecord)
    requires
        pos + 8 + ndims * 8 <= file_data@.len(),
    ensures
        r@ == (RecordModel {
            address,
            size: le_at(file_data@, pos as int, 4) as u32,
            filter_mask: le_at(file_data@, pos + 4, 4) as u32,
            offsets: Seq::new(
                ndims as nat,
                |d: int| le_at(file_data@, pos + 8 + d * 8, 8) as u64,
            ),
        }),
{
    assert(file_data.len() <= usize::MAX);
    let mut offsets: Vec<u64> = Vec::new();
    for d in 0..ndims
        invariant
            pos + 8 + ndims * 8 <= file_data@.len() <= usize::MAX,
            offsets@ == Seq::new(
                d as nat,
                |k: int| le_at(file_data@, pos + 8 + k * 8, 8) as u64,
            ),
    {
        offsets.push(get_u64(file_data, pos + 8 + d * 8));
        proof {
            assert(offsets@ =~= Seq::new(
                (d + 1) as nat,
                |k: int| le_at(file_data@, pos + 8 + k * 8, 8) as u64,
            ));
        }
    }
    proof {
        assert(offsets@ =~= Seq::new(
            ndims as nat,
            |k: int| le_at(file_data@, pos + 8 + k * 8, 8) as u64,
        ));
    }
    ChunkRecord {
        address,
        size: get_u32(file_data, pos),
        filter_mask: get_u32(file_data, pos + 4),
        offsets,
    }
}

} // verus!
