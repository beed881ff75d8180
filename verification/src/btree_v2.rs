//! Version 2 B-trees.
//!
//! The header is `BTHD`, version 0, the type of the records, the size of a node (4 bytes),
//! the size of a record (2), the depth (2), two bytes on when nodes are split and merged,
//! the address of the root node (8), its number of records (2), the number of all records
//! (8), and a checksum (4).
//!
//! A leaf is `BTLF`, version 0, the type, the records, and a checksum. Any other node is
//! `BTIN`, version 0, the type, the records, one more child pointer than there are records,
//! and a checksum. A child pointer is an address (8), the number of records of the child,
//! and, unless the child is a leaf, the number of all records below; the widths of the two
//! numbers follow from how many records there may be.

use vstd::prelude::*;
use crate::bytes::{copy_range, get_le, get_u16, get_u32, get_u64, has_tag, le_at, tag_at, to_usize};
use crate::chunk_record::{ChunkRecord, RecordModel};
use crate::dtype::views;
use crate::error::{outcome, outcomes, text, try_each, ErrorKind, OxiH5Error};

verus! {

/// The type of records on chunks without filters.
pub const RECORD_CHUNK: u8 = 10;

/// The type of records on chunks with filters.
pub const RECORD_FILTERED_CHUNK: u8 = 11;

/// What the header of a tree says.
#[derive(Debug, Clone, Copy, PartialEq, Eq, Structural)]
pub struct Tree {
    pub record_type: u8,
    pub node_size: u32,
    pub record_size: u16,
    pub depth: u16,
    pub root: u64,
    pub root_count: u16,
}

/// The tree whose header is at `addr`.
pub open spec fn tree_at(file: Seq<u8>, addr: int) -> Result<Tree, ErrorKind> {
    if addr + 38 > file.len() || !tag_at(file, addr, 'B', 'T', 'H', 'D') || file[addr + 4] != 0 {
        Err(ErrorKind::Format)
    } else {
        let tree = Tree {
            record_type: file[addr + 5],
            node_size: le_at(file, addr + 6, 4) as u32,
            record_size: le_at(file, addr + 10, 2) as u16,
            depth: le_at(file, addr + 12, 2) as u16,
            root: le_at(file, addr + 16, 8) as u64,
            root_count: le_at(file, addr + 24, 2) as u16,
        };
        if tree.record_size == 0 || tree.node_size < 10 {
            Err(ErrorKind::Format)
        } else {
            Ok(tree)
        }
    }
}

/// How many bytes numbers up to `n` take.
pub open spec fn width_for(n: nat) -> nat {
    if n < 0x100 {
        1
    } else if n < 0x1_0000 {
        2
    } else if n < 0x100_0000 {
        3
    } else if n < 0x1_0000_0000 {
        4
    } else if n < 0x100_0000_0000 {
        5
    } else if n < 0x1_0000_0000_0000 {
        6
    } else if n < 0x100_0000_0000_0000 {
        7
    } else {
        8
    }
}

/// How many records a leaf may have.
pub open spec fn leaf_room(tree: Tree) -> nat {
    ((tree.node_size - 10) / tree.record_size as int) as nat
}

/// The size of a pointer to a child of depth `depth`, below which there may be `below`
/// records.
pub open spec fn pointer_size(tree: Tree, depth: nat, below: nat) -> nat {
    8 + width_for(leaf_room(tree)) + if depth == 0 {
        0
    } else {
        width_for(below)
    }
}

/// How many records there may be at and below a node of that depth; `None` where a node has
/// no room for a record, or the number leaves 64 bits.
pub open spec fn room_below(tree: Tree, depth: nat) -> Option<nat>
    decreases depth,
{
    if depth == 0 {
        Some(leaf_room(tree))
    } else {
        match room_below(tree, (depth - 1) as nat) {
            None => None,
            Some(below) => {
                let pointer = pointer_size(tree, (depth - 1) as nat, below);
                let room = (tree.node_size - 10 - pointer) / (tree.record_size + pointer as int);
                if tree.node_size < 10 + pointer || room < 1 || (room + 1) * below + room
                    > u64::MAX {
                    None
                } else {
                    Some(((room + 1) * below + room) as nat)
                }
            },
        }
    }
}

/// Where record `i` of the node at `addr` starts.
pub open spec fn record_pos(tree: Tree, addr: int, i: int) -> int {
    addr + 6 + i * tree.record_size
}

/// Record `i` of the node at `addr`.
pub open spec fn record_at(file: Seq<u8>, tree: Tree, addr: int, i: int) -> Seq<u8> {
    file.subrange(record_pos(tree, addr, i), record_pos(tree, addr, i + 1))
}

/// The records at and below the node at `addr`, of that depth, with `count` records of its
/// own; those of the tree in order.
pub open spec fn node_records(
    file: Seq<u8>,
    tree: Tree,
    addr: int,
    count: nat,
    depth: nat,
) -> Result<
    Seq<Seq<u8>>,
    ErrorKind,
>
    decreases depth, count + 2,
{
    if depth == 0 {
        if addr + 6 > file.len() || !tag_at(file, addr, 'B', 'T', 'L', 'F') || file[addr + 4] != 0
            || file[addr + 5] != tree.record_type || record_pos(tree, addr, count as int)
            > file.len() {
            Err(ErrorKind::Format)
        } else {
            Ok(Seq::new(count, |i: int| record_at(file, tree, addr, i)))
        }
    } else {
        match room_below(tree, (depth - 1) as nat) {
            None => Err(ErrorKind::Format),
            Some(below) => {
                let pointer = pointer_size(tree, (depth - 1) as nat, below);
                if addr + 6 > file.len() || !tag_at(file, addr, 'B', 'T', 'I', 'N') || file[addr
                    + 4] != 0 || file[addr + 5] != tree.record_type || record_pos(
                    tree,
                    addr,
                    count as int,
                ) + (count + 1) * pointer > file.len() {
                    Err(ErrorKind::Format)
                } else {
                    child_records(file, tree, addr, count, depth, pointer, (count + 1) as nat)
                }
            },
        }
    }
}

/// The records below the first `k` children of a node, each followed by the node's own
/// record behind it.
pub open spec fn child_records(
    file: Seq<u8>,
    tree: Tree,
    addr: int,
    count: nat,
    depth: nat,
    pointer: nat,
    k: nat,
) -> Result<Seq<Seq<u8>>, ErrorKind>
    decreases depth, k,
{
    if k == 0 || k > count + 1 || depth == 0 {
        Ok(Seq::empty())
    } else {
        let pos = record_pos(tree, addr, count as int) + (k - 1) * pointer;
        match child_records(file, tree, addr, count, depth, pointer, (k - 1) as nat) {
            Err(kind) => Err(kind),
            Ok(front) => match node_records(
                file,
                tree,
                le_at(file, pos, 8) as int,
                le_at(file, pos + 8, width_for(leaf_room(tree))),
                (depth - 1) as nat,
            ) {
                Err(kind) => Err(kind),
                Ok(below) => if k - 1 < count {
                    Ok((front + below).push(record_at(file, tree, addr, k - 1)))
                } else {
                    Ok(front + below)
                },
            },
        }
    }
}

/// The records of a tree, in order; none where no root was allocated.
pub open spec fn records_of(file: Seq<u8>, tree: Tree) -> Result<Seq<Seq<u8>>, ErrorKind> {
    if tree.root == u64::MAX || tree.root_count == 0 {
        Ok(Seq::empty())
    } else {
        node_records(file, tree, tree.root as int, tree.root_count as nat, tree.depth as nat)
    }
}

fn malformed(what: &str) -> (r: OxiH5Error)
    ensures
        r@ == ErrorKind::Format,
{
    OxiH5Error::Format(text(&["B-tree v2: ", what]))
}

/// Read the header of the tree at `address`.
pub fn parse_tree(file_data: &[u8], address: u64) -> (r: Result<Tree, OxiH5Error>)
    ensures
        match (r, tree_at(file_data@, address as int)) {
            (Ok(a), Ok(b)) => a == b,
            (Err(e), Err(kind)) => e@ == kind,
            _ => false,
        },
{
    assert(file_data.len() <= usize::MAX);
    let at: usize = match to_usize(address) {
        Some(at) => at,
        None => {
            return Err(malformed("header truncated"));
        },
    };
    if file_data.len() < 38 || at > file_data.len() - 38 {
        return Err(malformed("header truncated"));
    }
    if !has_tag(file_data, at, 'B', 'T', 'H', 'D') || file_data[at + 4] != 0 {
        return Err(malformed("no header"));
    }
    let tree = Tree {
        record_type: file_data[at + 5],
        node_size: get_u32(file_data, at + 6),
        record_size: get_u16(file_data, at + 10),
        depth: get_u16(file_data, at + 12),
        root: get_u64(file_data, at + 16),
        root_count: get_u16(file_data, at + 24),
    };
    if tree.record_size == 0 || tree.node_size < 10 {
        return Err(malformed("nodes without room"));
    }
    Ok(tree)
}

/// How many bytes numbers up to `n` take.
pub(crate) fn bytes_for(n: u64) -> (r: usize)
    ensures
        r == width_for(n as nat),
        1 <= r <= 8,
{
    if n < 0x100 {
        1
    } else if n < 0x1_0000 {
        2
    } else if n < 0x100_0000 {
        3
    } else if n < 0x1_0000_0000 {
        4
    } else if n < 0x100_0000_0000 {
        5
    } else if n < 0x1_0000_0000_0000 {
        6
    } else if n < 0x100_0000_0000_0000 {
        7
    } else {
        8
    }
}

/// The size of a pointer to a child of that depth.
fn child_pointer(tree: &Tree, depth: u16, below: u64) -> (r: usize)
    requires
        tree.record_size > 0,
        tree.node_size >= 10,
    ensures
        r == pointer_size(*tree, depth as nat, below as nat),
        9 <= r <= 24,
{
    let leaf: u64 = ((tree.node_size - 10) / tree.record_size as u32) as u64;
    let own: usize = bytes_for(leaf);
    if depth == 0 {
        8 + own
    } else {
        8 + own + bytes_for(below)
    }
}

/// How many records there may be at and below a node of that depth.
fn room_at(tree: &Tree, depth: u16) -> (r: Option<u64>)
    requires
        tree.record_size > 0,
        tree.node_size >= 10,
    ensures
        match r {
            Some(n) => room_below(*tree, depth as nat) == Some(n as nat),
            None => room_below(*tree, depth as nat) is None,
        },
    decreases depth,
{
    if depth == 0 {
        return Some(((tree.node_size - 10) / tree.record_size as u32) as u64);
    }
    let below: u64 = match room_at(tree, depth - 1) {
        None => {
            return None;
        },
        Some(below) => below,
    };
    let pointer: usize = child_pointer(tree, depth - 1, below);
    if (tree.node_size as u64) < 10 + pointer as u64 {
        return None;
    }
    let left: u64 = tree.node_size as u64 - 10 - pointer as u64;
    let room: u64 = left / (tree.record_size as u64 + pointer as u64);
    if room < 1 {
        return None;
    }
    proof {
        assert((room + 1) * below >= 0) by (nonlinear_arith)
            requires
                room >= 0,
                below >= 0,
        ;
    }
    match (room + 1).checked_mul(below) {
        None => None,
        Some(n) => n.checked_add(room),
    }
}

/// Whether a node of that kind starts at `at`.
fn is_node(file_data: &[u8], at: usize, tree: &Tree, leaf: bool) -> (r: bool)
    ensures
        r == (at + 6 <= file_data@.len() && (if leaf {
            tag_at(file_data@, at as int, 'B', 'T', 'L', 'F')
        } else {
            tag_at(file_data@, at as int, 'B', 'T', 'I', 'N')
        }) && file_data@[at + 4] == 0 && file_data@[at + 5] == tree.record_type),
{
    assert(file_data.len() <= usize::MAX);
    if file_data.len() < 6 || at > file_data.len() - 6 {
        return false;
    }
    let tagged: bool = if leaf {
        has_tag(file_data, at, 'B', 'T', 'L', 'F')
    } else {
        has_tag(file_data, at, 'B', 'T', 'I', 'N')
    };
    tagged && file_data[at + 4] == 0 && file_data[at + 5] == tree.record_type
}

/// Whether `count` runs of `size` bytes fit from `at` on.
fn runs_fit(len: usize, at: usize, count: u64, size: usize) -> (r: bool)
    requires
        size > 0,
    ensures
        r == (at + count * size <= len),
{
    proof {
        assert(count * size >= 0) by (nonlinear_arith)
            requires
                count >= 0,
                size >= 0,
        ;
    }
    if at > len {
        return false;
    }
    let left: u64 = (len - at) as u64;
    match count.checked_mul(size as u64) {
        None => false,
        Some(n) => n <= left,
    }
}

proof fn lemma_record_bounds(tree: Tree, addr: int, i: int, count: int)
    requires
        0 <= i < count,
        0 <= addr,
    ensures
        addr + 6 <= record_pos(tree, addr, i) <= record_pos(tree, addr, i + 1) <= record_pos(
            tree,
            addr,
            count,
        ),
{
    let s = tree.record_size as int;
    assert(0 <= i * s && i * s <= (i + 1) * s && (i + 1) * s <= count * s) by (nonlinear_arith)
        requires
            0 <= i < count,
            s >= 0,
    ;
}

proof fn lemma_children_fail(
    file: Seq<u8>,
    tree: Tree,
    addr: int,
    count: nat,
    depth: nat,
    pointer: nat,
    i: nat,
    k: nat,
)
    requires
        i <= k <= count + 1,
        child_records(file, tree, addr, count, depth, pointer, i) is Err,
    ensures
        child_records(file, tree, addr, count, depth, pointer, k) == child_records(
            file,
            tree,
            addr,
            count,
            depth,
            pointer,
            i,
        ),
    decreases k,
{
    if i < k {
        lemma_children_fail(file, tree, addr, count, depth, pointer, i, (k - 1) as nat);
    }
}

/// The views of records.
pub open spec fn contents(records: Seq<Vec<u8>>) -> Seq<Seq<u8>> {
    Seq::new(records.len(), |i: int| records[i]@)
}

/// Append the records at and below the node at `addr` to `found`.
fn read_node(
    file_data: &[u8],
    tree: &Tree,
    addr: u64,
    count: u64,
    depth: u16,
    found: &mut Vec<Vec<u8>>,
) -> (r: Result<(), OxiH5Error>)
    requires
        tree.record_size > 0,
        tree.node_size >= 10,
    ensures
        match (r, node_records(file_data@, *tree, addr as int, count as nat, depth as nat)) {
            (Ok(()), Ok(records)) => contents(final(found)@) == contents(old(found)@) + records,
            (Err(e), Err(kind)) => e@ == kind,
            _ => false,
        },
    decreases depth,
{
    assert(file_data.len() <= usize::MAX);
    let ghost before = contents(found@);
    let ghost file = file_data@;
    let at: usize = match to_usize(addr) {
        Some(at) => at,
        None => {
            return Err(malformed("node out of the file"));
        },
    };
    let size: usize = tree.record_size as usize;
    proof {
        assert(count * size >= 0) by (nonlinear_arith)
            requires
                count >= 0,
                size >= 0,
        ;
    }
    if !is_node(file_data, at, tree, depth == 0) {
        return Err(malformed("no node"));
    }
    if !runs_fit(file_data.len(), at + 6, count, size) {
        proof {
            if depth > 0 {
                match room_below(*tree, (depth - 1) as nat) {
                    None => {},
                    Some(below) => {
                        let pointer = pointer_size(*tree, (depth - 1) as nat, below);
                        assert((count + 1) * pointer >= 0) by (nonlinear_arith)
                            requires
                                count >= 0,
                                pointer >= 0,
                        ;
                    },
                }
            }
        }
        return Err(malformed("records truncated"));
    }
    proof {
        assert(count <= count * size) by (nonlinear_arith)
            requires
                count >= 0,
                size >= 1,
        ;
    }
    let n: usize = count as usize;
    if depth == 0 {
        for i in 0..n
            invariant
                file == file_data@,
                n == count,
                size == tree.record_size,
                record_pos(*tree, at as int, n as int) <= file.len(),
                file.len() <= usize::MAX,
                contents(found@) == before + Seq::new(
                    i as nat,
                    |k: int| record_at(file, *tree, at as int, k),
                ),
        {
            let ghost front = contents(found@);
            proof {
                lemma_record_bounds(*tree, at as int, i as int, n as int);
                assert((i + 1) * size == i * size + size) by (nonlinear_arith);
            }
            let from: usize = at + 6 + i * size;
            found.push(copy_range(file_data, from, from + size));
            proof {
                assert(contents(found@) =~= front.push(record_at(file, *tree, at as int, i as int)));
                assert(contents(found@) =~= before + Seq::new(
                    (i + 1) as nat,
                    |k: int| record_at(file, *tree, at as int, k),
                ));
            }
        }
        return Ok(());
    }
    let below: u64 = match room_at(tree, depth - 1) {
        None => {
            return Err(malformed("nodes without room"));
        },
        Some(below) => below,
    };
    let pointer: usize = child_pointer(tree, depth - 1, below);
    let pointers: usize = at + 6 + n * size;
    if !runs_fit(file_data.len(), pointers, count + 1, pointer) {
        return Err(malformed("child pointers truncated"));
    }
    let leaf: u64 = ((tree.node_size - 10) / tree.record_size as u32) as u64;
    let width: usize = bytes_for(leaf);
    proof {
        assert(contents(found@) =~= before + Seq::empty());
    }
    for i in 0..n + 1
        invariant
            depth > 0,
            tree.record_size > 0,
            tree.node_size >= 10,
            before == contents(old(found)@),
            file == file_data@,
            at == addr,
            n == count,
            size == tree.record_size,
            width == width_for(leaf_room(*tree)),
            width + 8 <= pointer,
            width <= 8,
            pointers == record_pos(*tree, at as int, n as int),
            pointers + (n + 1) * pointer <= file.len(),
            file.len() <= usize::MAX,
            node_records(file, *tree, at as int, n as nat, depth as nat) == child_records(
                file,
                *tree,
                at as int,
                n as nat,
                depth as nat,
                pointer as nat,
                (n + 1) as nat,
            ),
            child_records(
                file,
                *tree,
                at as int,
                n as nat,
                depth as nat,
                pointer as nat,
                i as nat,
            ) is Ok,
            contents(found@) == before + child_records(
                file,
                *tree,
                at as int,
                n as nat,
                depth as nat,
                pointer as nat,
                i as nat,
            )->Ok_0,
    {
        proof {
            let p = pointer as int;
            assert(0 <= i * p && i * p + p <= (n + 1) * p) by (nonlinear_arith)
                requires
                    0 <= i < n + 1,
                    p >= 0,
            ;
            if child_records(
                file,
                *tree,
                at as int,
                n as nat,
                depth as nat,
                pointer as nat,
                (i + 1) as nat,
            ) is Err {
                lemma_children_fail(
                    file,
                    *tree,
                    at as int,
                    n as nat,
                    depth as nat,
                    pointer as nat,
                    (i + 1) as nat,
                    (n + 1) as nat,
                );
            }
        }
        let ghost front = contents(found@);
        let pos: usize = pointers + i * pointer;
        let child: u64 = get_u64(file_data, pos);
        let child_count: u64 = get_le(file_data, pos + 8, width);
        match read_node(file_data, tree, child, child_count, depth - 1, found) {
            Err(e) => {
                return Err(e);
            },
            Ok(()) => {},
        }
        if i < n {
            let ghost more = contents(found@);
            proof {
                lemma_record_bounds(*tree, at as int, i as int, n as int);
                assert((i + 1) * size == i * size + size) by (nonlinear_arith);
                assert((n + 1) * pointer >= 0) by (nonlinear_arith)
                    requires
                        n >= 0,
                        pointer >= 0,
                ;
            }
            let from: usize = at + 6 + i * size;
            found.push(copy_range(file_data, from, from + size));
            proof {
                assert(contents(found@) =~= more.push(record_at(file, *tree, at as int, i as int)));
            }
        }
        proof {
            assert(contents(found@) =~= before + child_records(
                file,
                *tree,
                at as int,
                n as nat,
                depth as nat,
                pointer as nat,
                (i + 1) as nat,
            )->Ok_0);
        }
    }
    Ok(())
}

/// Read the records of a tree, in order.
pub fn read_records(file_data: &[u8], tree: &Tree) -> (r: Result<Vec<Vec<u8>>, OxiH5Error>)
    requires
        tree.record_size > 0,
        tree.node_size >= 10,
    ensures
        match (r, records_of(file_data@, *tree)) {
            (Ok(a), Ok(b)) => contents(a@) == b,
            (Err(e), Err(kind)) => e@ == kind,
            _ => false,
        },
{
    let mut found: Vec<Vec<u8>> = Vec::new();
    proof {
        assert(contents(found@) =~= Seq::empty());
    }
    if tree.root == u64::MAX || tree.root_count == 0 {
        return Ok(found);
    }
    match read_node(
        file_data,
        tree,
        tree.root,
        tree.root_count as u64,
        tree.depth,
        &mut found,
    ) {
        Err(e) => Err(e),
        Ok(()) => {
            proof {
                let all = records_of(file_data@, *tree)->Ok_0;
                assert(Seq::<Seq<u8>>::empty() + all =~= all);
            }
            Ok(found)
        },
    }
}

/// The position that scaled coordinates stand for: each times the chunk's extent where
/// that is known.
pub open spec fn scaled_position(data: Seq<u8>, at: int, ndims: nat, chunk_dims: Seq<u64>) -> Result<
    Seq<u64>,
    ErrorKind,
> {
    if chunk_dims.len() != ndims {
        Ok(Seq::new(ndims, |d: int| le_at(data, at + d * 8, 8) as u64))
    } else if exists|d: int|
        0 <= d < ndims && #[trigger] le_at(data, at + d * 8, 8) * chunk_dims[d] > u64::MAX {
        Err(ErrorKind::Format)
    } else {
        Ok(Seq::new(ndims, |d: int| (le_at(data, at + d * 8, 8) * chunk_dims[d]) as u64))
    }
}

/// The chunk that a record stands for.
///
/// A record is the address of the chunk (8 bytes) and its coordinates in units of the
/// chunk shape (8 each). With filters, the stored size and the filter mask (4) stand
/// between them.
pub open spec fn chunk_in(
    record_type: u8,
    data: Seq<u8>,
    ndims: nat,
    chunk_dims: Seq<u64>,
    unfiltered_size: usize,
) -> Result<RecordModel, ErrorKind> {
    if record_type == RECORD_CHUNK && data.len() == 8 + ndims * 8 {
        match scaled_position(data, 8, ndims, chunk_dims) {
            Err(kind) => Err(kind),
            Ok(offsets) => Ok(
                RecordModel {
                    address: le_at(data, 0, 8) as u64,
                    size: unfiltered_size as u32,
                    filter_mask: 0,
                    offsets,
                },
            ),
        }
    } else if record_type == RECORD_FILTERED_CHUNK && 13 + ndims * 8 <= data.len() <= 20 + ndims
        * 8 {
        let width = (data.len() - 12 - ndims * 8) as nat;
        if le_at(data, 8, width) > u32::MAX {
            Err(ErrorKind::Format)
        } else {
            match scaled_position(data, 12 + width as int, ndims, chunk_dims) {
                Err(kind) => Err(kind),
                Ok(offsets) => Ok(
                    RecordModel {
                        address: le_at(data, 0, 8) as u64,
                        size: le_at(data, 8, width) as u32,
                        filter_mask: le_at(data, 8 + width as int, 4) as u32,
                        offsets,
                    },
                ),
            }
        }
    } else {
        Err(ErrorKind::Format)
    }
}

/// The chunks that the tree at `addr` lists.
pub open spec fn tree_chunks(
    file: Seq<u8>,
    addr: int,
    ndims: nat,
    chunk_dims: Seq<u64>,
    unfiltered_size: usize,
) -> Result<Seq<RecordModel>, ErrorKind> {
    match tree_at(file, addr) {
        Err(kind) => Err(kind),
        Ok(tree) => match records_of(file, tree) {
            Err(kind) => Err(kind),
            Ok(records) => try_each(
                records.len(),
                |i: int|
                    chunk_in(
                        tree.record_type,
                        records[i],
                        ndims,
                        chunk_dims,
                        unfiltered_size,
                    ),
            ),
        },
    }
}

fn read_position(data: &[u8], at: usize, ndims: usize, chunk_dims: &[u64]) -> (r: Result<
    Vec<u64>,
    OxiH5Error,
>)
    requires
        at + ndims * 8 <= data@.len(),
    ensures
        match (r, scaled_position(data@, at as int, ndims as nat, chunk_dims@)) {
            (Ok(a), Ok(b)) => a@ == b,
            (Err(e), Err(kind)) => e@ == kind,
            _ => false,
        },
{
    assert(data.len() <= usize::MAX);
    let known: bool = chunk_dims.len() == ndims;
    let mut position: Vec<u64> = Vec::new();
    for d in 0..ndims
        invariant
            at + ndims * 8 <= data@.len() <= usize::MAX,
            known == (chunk_dims@.len() == ndims),
            position@.len() == d,
            forall|k: int|
                0 <= k < d && known ==> #[trigger] le_at(data@, at + k * 8, 8) * chunk_dims@[k]
                    <= u64::MAX,
            forall|k: int|
                0 <= k < d ==> #[trigger] position@[k] == (if known {
                    (le_at(data@, at + k * 8, 8) * chunk_dims@[k]) as u64
                } else {
                    le_at(data@, at + k * 8, 8) as u64
                }),
    {
        let scaled: u64 = get_u64(data, at + d * 8);
        if known {
            proof {
                assert(scaled * chunk_dims@[d as int] >= 0) by (nonlinear_arith);
            }
            match scaled.checked_mul(chunk_dims[d]) {
                Some(v) => {
                    position.push(v);
                },
                None => {
                    assert(le_at(data@, at + d as int * 8, 8) * chunk_dims@[d as int] > u64::MAX);
                    return Err(malformed("chunk out of range"));
                },
            }
        } else {
            position.push(scaled);
        }
    }
    proof {
        if known {
            assert(position@ =~= Seq::new(
                ndims as nat,
                |d: int| (le_at(data@, at + d * 8, 8) * chunk_dims@[d]) as u64,
            ));
        } else {
            assert(position@ =~= Seq::new(
                ndims as nat,
                |d: int| le_at(data@, at + d * 8, 8) as u64,
            ));
        }
    }
    Ok(position)
}

fn read_chunk(
    record_type: u8,
    data: &[u8],
    ndims: usize,
    chunk_dims: &[u64],
    unfiltered_size: usize,
) -> (r: Result<ChunkRecord, OxiH5Error>)
    ensures
        outcome(r) == chunk_in(
            record_type,
            data@,
            ndims as nat,
            chunk_dims@,
            unfiltered_size,
        ),
{
    assert(data.len() <= usize::MAX);
    if ndims > data.len() / 8 {
        return Err(malformed("record of another rank"));
    }
    let coords: usize = ndims * 8;
    let rest: usize = data.len() - coords;
    if record_type == RECORD_CHUNK && rest == 8 {
        let offsets: Vec<u64> = read_position(data, 8, ndims, chunk_dims)?;
        Ok(
            ChunkRecord {
                address: get_u64(data, 0),
                size: unfiltered_size as u32,
                filter_mask: 0,
                offsets,
            },
        )
    } else if record_type == RECORD_FILTERED_CHUNK && 13 <= rest && rest <= 20 {
        let width: usize = rest - 12;
        let size: u64 = get_le(data, 8, width);
        if size > u32::MAX as u64 {
            return Err(malformed("chunk too large"));
        }
        let offsets: Vec<u64> = read_position(data, 12 + width, ndims, chunk_dims)?;
        Ok(
            ChunkRecord {
                address: get_u64(data, 0),
                size: size as u32,
                filter_mask: get_u32(data, 8 + width),
                offsets,
            },
        )
    } else {
        Err(malformed("records that are not on chunks"))
    }
}

/// Read the chunks that the tree at `address` lists, for a dataset of rank `ndims`. Their
/// positions are those of their first elements where the chunk shape is given, else in
/// units of it.
pub fn parse_chunks(
    file_data: &[u8],
    address: u64,
    ndims: usize,
    chunk_dims: &[u64],
    unfiltered_size: usize,
) -> (r: Result<Vec<ChunkRecord>, OxiH5Error>)
    ensures
        outcomes(r) == tree_chunks(
            file_data@,
            address as int,
            ndims as nat,
            chunk_dims@,
            unfiltered_size,
        ),
{
    let tree: Tree = parse_tree(file_data, address)?;
    let records: Vec<Vec<u8>> = read_records(file_data, &tree)?;
    let ghost all = contents(records@);
    let ghost f = |i: int|
        chunk_in(tree.record_type, all[i], ndims as nat, chunk_dims@, unfiltered_size);
    let mut chunks: Vec<ChunkRecord> = Vec::new();
    let n: usize = records.len();
    proof {
        assert(views(chunks@) =~= Seq::empty());
    }
    for i in 0..n
        invariant
            n == records@.len(),
            all == contents(records@),
            f == (|i: int|
                chunk_in(tree.record_type, all[i], ndims as nat, chunk_dims@, unfiltered_size)),
            tree_chunks(
                file_data@,
                address as int,
                ndims as nat,
                chunk_dims@,
                unfiltered_size,
            ) == try_each(n as nat, f),
            try_each(i as nat, f) == Ok::<Seq<RecordModel>, ErrorKind>(views(chunks@)),
    {
        let ghost before = views(chunks@);
        assert(all[i as int] == records@[i as int]@);
        match read_chunk(tree.record_type, &records[i], ndims, chunk_dims, unfiltered_size) {
            Ok(chunk) => {
                chunks.push(chunk);
                proof {
                    assert(views(chunks@) =~= before.push(chunk@));
                }
            },
            Err(e) => {
                proof {
                    crate::error::lemma_try_each_fails((i + 1) as nat, n as nat, f);
                }
                return Err(e);
            },
        }
    }
    Ok(chunks)
}

} // verus!
