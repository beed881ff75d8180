//! Version 1 B-trees over the members of a group.
//!
//! A node is `TREE`, the node type 0, its level, the number of its entries (2), the
//! addresses of its siblings (8 each), and then the entries: a key (8) and the
//! address of a child (8). The children of a node of level 0 are symbol table nodes;
//! those of another node are nodes of a lower level.

use vstd::prelude::*;
use crate::bytes::{get_u16, get_u64, has_tag, le_at, tag_at, to_usize};
use crate::error::{outcome, text, ErrorKind, OxiH5Error};

verus! {

/// The address of the child in entry `i` of the node at `addr`.
pub open spec fn child_at(file: Seq<u8>, addr: int, i: int) -> u64 {
    le_at(file, addr + 32 + i * 16, 8) as u64
}

/// The leaves under the node at `addr`, whose level must be below `limit`.
pub open spec fn node_leaves(file: Seq<u8>, addr: int, limit: nat) -> Result<Seq<u64>, ErrorKind>
    decreases limit, 65536nat,
{
    if addr + 24 > file.len() || !tag_at(file, addr, 'T', 'R', 'E', 'E') || file[addr + 4] != 0
        || file[addr + 5] >= limit {
        Err(ErrorKind::Format)
    } else {
        let n = le_at(file, addr + 6, 2) as u16;
        if addr + 24 + n * 16 > file.len() {
            Err(ErrorKind::Format)
        } else {
            entry_leaves(file, addr, file[addr + 5] as nat, n as nat)
        }
    }
}

/// The leaves under the first `k` entries of the node at `addr`.
pub open spec fn entry_leaves(file: Seq<u8>, addr: int, level: nat, k: nat) -> Result<
    Seq<u64>,
    ErrorKind,
>
    decreases level + 1, k,
{
    if k == 0 {
        Ok(Seq::empty())
    } else {
        match entry_leaves(file, addr, level, (k - 1) as nat) {
            Err(kind) => Err(kind),
            Ok(found) => if level == 0 {
                Ok(found.push(child_at(file, addr, k - 1)))
            } else {
                match node_leaves(file, child_at(file, addr, k - 1) as int, level) {
                    Err(kind) => Err(kind),
                    Ok(more) => Ok(found + more),
                }
            },
        }
    }
}

/// The leaves of the tree whose root is at `addr`.
pub open spec fn leaves_at(file: Seq<u8>, addr: u64) -> Result<Seq<u64>, ErrorKind> {
    node_leaves(file, addr as int, 256)
}

/// The leaves of a tree: the addresses of symbol table nodes, in order.
#[derive(Debug)]
pub struct GroupBTree {
    pub leaf_addresses: Vec<u64>,
}

impl View for GroupBTree {
    type V = Seq<u64>;

    open spec fn view(&self) -> Seq<u64> {
        self.leaf_addresses@
    }
}

proof fn lemma_entries_fail(file: Seq<u8>, addr: int, level: nat, i: nat, k: nat)
    requires
        i <= k,
        entry_leaves(file, addr, level, i) is Err,
    ensures
        entry_leaves(file, addr, level, k) == entry_leaves(file, addr, level, i),
    decreases k,
{
    if i < k {
        lemma_entries_fail(file, addr, level, i, (k - 1) as nat);
    }
}

/// Parse the tree whose root is at `address`.
pub fn parse(file_data: &[u8], address: u64) -> (r: Result<GroupBTree, OxiH5Error>)
    ensures
        outcome(r) == leaves_at(file_data@, address),
{
    let leaf_addresses: Vec<u64> = parse_node(file_data, address, 256)?;
    Ok(GroupBTree { leaf_addresses })
}

fn parse_node(file_data: &[u8], addr: u64, limit: u16) -> (r: Result<Vec<u64>, OxiH5Error>)
    ensures
        outcome(r) == node_leaves(file_data@, addr as int, limit as nat),
    decreases limit,
{
    assert(file_data.len() <= usize::MAX);
    let base: usize = match to_usize(addr) {
        Some(base) => base,
        None => {
            return Err(OxiH5Error::Format("B-tree v1: address overflow".to_string()));
        },
    };
    if file_data.len() < 24 || base > file_data.len() - 24 {
        return Err(
            OxiH5Error::Format(text(&["B-tree v1 node at ", &base.to_string(), " truncated"])),
        );
    }
    if !has_tag(file_data, base, 'T', 'R', 'E', 'E') || file_data[base + 4] != 0 {
        return Err(
            OxiH5Error::Format(text(&["B-tree v1: no group node at ", &base.to_string()])),
        );
    }
    let level: u8 = file_data[base + 5];
    if level as u16 >= limit {
        return Err(
            OxiH5Error::Format(text(&["B-tree v1: levels do not descend at ", &base.to_string()])),
        );
    }
    let n: usize = get_u16(file_data, base + 6) as usize;
    if n * 16 > file_data.len() - base - 24 {
        return Err(OxiH5Error::Format("B-tree v1: entries truncated".to_string()));
    }
    let mut leaves: Vec<u64> = Vec::new();
    for i in 0..n
        invariant
            n <= 65535,
            base + 24 + n * 16 <= file_data@.len() <= usize::MAX,
            level < limit,
            entry_leaves(file_data@, base as int, level as nat, i as nat) == Ok::<
                Seq<u64>,
                ErrorKind,
            >(leaves@),
            node_leaves(file_data@, addr as int, limit as nat) == entry_leaves(
                file_data@,
                base as int,
                level as nat,
                n as nat,
            ),
    {
        let ghost before = leaves@;
        let child: u64 = get_u64(file_data, base + 32 + i * 16);
        assert(child == child_at(file_data@, base as int, i as int));
        if level == 0 {
            leaves.push(child);
        } else {
            match parse_node(file_data, child, level as u16) {
                Ok(mut more) => {
                    let ghost new = more@;
                    leaves.append(&mut more);
                    assert(leaves@ =~= before + new);
                },
                Err(e) => {
                    proof {
                        lemma_entries_fail(
                            file_data@,
                            base as int,
                            level as nat,
                            (i + 1) as nat,
                            n as nat,
                        );
                    }
                    return Err(e);
                },
            }
        }
    }
    Ok(leaves)
}

} // verus!
