//! The fixed structures of a file: superblock, B-tree leaf, local heap header,
//! symbol table node.

use vstd::prelude::*;
use crate::bytes::{
    le_bytes, lemma_le_bytes_len, push_all, push_le, push_zeros, put, put_bytes, zeros,
};
use crate::superblock::signature;

verus! {

/// Where the root group's object header is.
pub const ROOT_OH_ADDR: usize = 96;

/// Size of a group's object header without attributes.
pub const GROUP_OH_SIZE: usize = 40;

/// Size of a B-tree leaf with one child.
pub const BTREE_LEAF_SIZE: usize = 48;

/// Size of a local heap header.
pub const HEAP_HEADER_SIZE: usize = 32;

/// How many entries a symbol table node has room for.
pub const SNOD_CAPACITY: usize = 8;

/// How many links the writer lays out in a group: as many as a B-tree of four levels leads
/// to, with 32 children to a node and eight links to a symbol table node.
pub const MAX_LINKS: usize = 8388608;

/// Size of a symbol table node.
pub const SNOD_SIZE: usize = 328;

/// Write a field of two bytes.
pub fn write_u16_le(buf: &mut Vec<u8>, offset: usize, val: u16)
    requires
        offset + 2 <= old(buf)@.len(),
    ensures
        final(buf)@ == put(old(buf)@, offset as int, le_bytes(val as nat, 2)),
{
    let mut field: Vec<u8> = Vec::new();
    push_le(&mut field, val as u64, 2);
    proof {
        lemma_le_bytes_len(val as nat, 2);
        assert(field@ =~= le_bytes(val as nat, 2));
    }
    put_bytes(buf, offset, &field);
}

/// Write a field of four bytes.
pub fn write_u32_le(buf: &mut Vec<u8>, offset: usize, val: u32)
    requires
        offset + 4 <= old(buf)@.len(),
    ensures
        final(buf)@ == put(old(buf)@, offset as int, le_bytes(val as nat, 4)),
{
    let mut field: Vec<u8> = Vec::new();
    push_le(&mut field, val as u64, 4);
    proof {
        lemma_le_bytes_len(val as nat, 4);
        assert(field@ =~= le_bytes(val as nat, 4));
    }
    put_bytes(buf, offset, &field);
}

/// Write a field of eight bytes.
pub fn write_u64_le(buf: &mut Vec<u8>, offset: usize, val: u64)
    requires
        offset + 8 <= old(buf)@.len(),
    ensures
        final(buf)@ == put(old(buf)@, offset as int, le_bytes(val as nat, 8)),
{
    let mut field: Vec<u8> = Vec::new();
    push_le(&mut field, val, 8);
    proof {
        lemma_le_bytes_len(val as nat, 8);
        assert(field@ =~= le_bytes(val as nat, 8));
    }
    put_bytes(buf, offset, &field);
}

/// The head of an object header message: type, body size, flags and three reserved
/// bytes.
pub open spec fn msg_head(msg_type: nat, body_size: nat, flags: u8) -> Seq<u8> {
    le_bytes(msg_type, 2) + le_bytes(body_size, 2) + seq![flags] + zeros(3)
}

fn push_msg_head(out: &mut Vec<u8>, msg_type: u16, body_size: u16, flags: u8)
    ensures
        final(out)@ == old(out)@ + msg_head(msg_type as nat, body_size as nat, flags),
{
    let ghost before = out@;
    push_le(out, msg_type as u64, 2);
    push_le(out, body_size as u64, 2);
    out.push(flags);
    push_zeros(out, 3);
    proof {
        assert(out@ =~= before + msg_head(msg_type as nat, body_size as nat, flags));
    }
}

/// Write the head of a message without flags.
pub fn write_msg_header(buf: &mut Vec<u8>, offset: usize, msg_type: u16, body_size: u16)
    requires
        offset + 8 <= old(buf)@.len(),
    ensures
        final(buf)@ == put(
            old(buf)@,
            offset as int,
            msg_head(msg_type as nat, body_size as nat, 0),
        ),
{
    write_msg_header_flags(buf, offset, msg_type, body_size, 0);
}

/// Write the head of a message.
pub fn write_msg_header_flags(
    buf: &mut Vec<u8>,
    offset: usize,
    msg_type: u16,
    body_size: u16,
    flags: u8,
)
    requires
        offset + 8 <= old(buf)@.len(),
    ensures
        final(buf)@ == put(
            old(buf)@,
            offset as int,
            msg_head(msg_type as nat, body_size as nat, flags),
        ),
{
    let mut head: Vec<u8> = Vec::new();
    push_msg_head(&mut head, msg_type, body_size, flags);
    proof {
        lemma_le_bytes_len(msg_type as nat, 2);
        lemma_le_bytes_len(body_size as nat, 2);
        assert(head@ =~= msg_head(msg_type as nat, body_size as nat, flags));
    }
    put_bytes(buf, offset, &head);
}

/// The bytes from the start of a file to the root group's object header: the
/// signature; superblock version 0; offsets and lengths of 8 bytes; the node
/// sizes 4 and 16; base address 0, no free space, the file's length, no driver
/// block; and the root group's symbol table entry.
pub open spec fn superblock_image(btree: nat, heap: nat, eof: nat) -> Seq<u8> {
    signature() + seq![0u8, 0u8, 0u8, 0u8, 0u8, 8u8, 8u8, 0u8] + le_bytes(4, 2) + le_bytes(16, 2)
        + le_bytes(0, 4) + le_bytes(0, 8) + le_bytes(u64::MAX as nat, 8) + le_bytes(eof, 8)
        + le_bytes(u64::MAX as nat, 8) + le_bytes(0, 8) + le_bytes(96, 8) + le_bytes(1, 4)
        + le_bytes(0, 4) + le_bytes(btree, 8) + le_bytes(heap, 8)
}

/// The bytes from the start of a file to the root group's object header.
pub fn superblock_bytes(btree_addr: usize, heap_addr: usize, eof_addr: u64) -> (r: Vec<u8>)
    ensures
        r@ == superblock_image(btree_addr as nat, heap_addr as nat, eof_addr as nat),
        r@.len() == 96,
{
    let mut out: Vec<u8> = vec![0x89u8, 0x48, 0x44, 0x46, 0x0d, 0x0a, 0x1a, 0x0a];
    let fields: Vec<u8> = vec![0u8, 0, 0, 0, 0, 8, 8, 0];
    proof {
        assert(out@ =~= signature());
        assert(fields@ =~= seq![0u8, 0u8, 0u8, 0u8, 0u8, 8u8, 8u8, 0u8]);
        lemma_le_bytes_len(4, 2);
        lemma_le_bytes_len(16, 2);
        lemma_le_bytes_len(0, 4);
        lemma_le_bytes_len(1, 4);
        lemma_le_bytes_len(0, 8);
        lemma_le_bytes_len(96, 8);
        lemma_le_bytes_len(u64::MAX as nat, 8);
        lemma_le_bytes_len(eof_addr as nat, 8);
        lemma_le_bytes_len(btree_addr as nat, 8);
        lemma_le_bytes_len(heap_addr as nat, 8);
    }
    push_all(&mut out, &fields);
    push_le(&mut out, 4, 2);
    push_le(&mut out, 16, 2);
    push_le(&mut out, 0, 4);
    push_le(&mut out, 0, 8);
    push_le(&mut out, u64::MAX, 8);
    push_le(&mut out, eof_addr, 8);
    push_le(&mut out, u64::MAX, 8);
    push_le(&mut out, 0, 8);
    push_le(&mut out, 96, 8);
    push_le(&mut out, 1, 4);
    push_le(&mut out, 0, 4);
    push_le(&mut out, btree_addr as u64, 8);
    push_le(&mut out, heap_addr as u64, 8);
    out
}

/// Write the signature and the superblock.
pub fn write_superblock(buf: &mut Vec<u8>, btree_addr: usize, heap_addr: usize, eof_addr: u64)
    requires
        old(buf)@.len() >= 96,
    ensures
        final(buf)@ == put(
            old(buf)@,
            0,
            superblock_image(btree_addr as nat, heap_addr as nat, eof_addr as nat),
        ),
{
    let image: Vec<u8> = superblock_bytes(btree_addr, heap_addr, eof_addr);
    put_bytes(buf, 0, &image);
}

/// A B-tree leaf with one child: `TREE`, type 0, level 0, one entry, no siblings, a
/// key, the child, a key.
pub open spec fn btree_leaf_image(snod: nat, key1: nat) -> Seq<u8> {
    seq!['T' as u8, 'R' as u8, 'E' as u8, 'E' as u8, 0u8, 0u8] + le_bytes(1, 2) + le_bytes(
        u64::MAX as nat,
        8,
    ) + le_bytes(u64::MAX as nat, 8) + le_bytes(0, 8) + le_bytes(snod, 8) + le_bytes(key1, 8)
}

/// A B-tree leaf whose child is the symbol table node at `snod_addr`.
pub fn btree_leaf_bytes(snod_addr: u64, key1: u64) -> (r: Vec<u8>)
    ensures
        r@ == btree_leaf_image(snod_addr as nat, key1 as nat),
        r@.len() == 48,
{
    let mut out: Vec<u8> = vec![0x54u8, 0x52, 0x45, 0x45, 0, 0];
    proof {
        assert('T' as u8 == 0x54 && 'R' as u8 == 0x52 && 'E' as u8 == 0x45);
        assert(out@ =~= seq!['T' as u8, 'R' as u8, 'E' as u8, 'E' as u8, 0u8, 0u8]);
        lemma_le_bytes_len(1, 2);
        lemma_le_bytes_len(u64::MAX as nat, 8);
        lemma_le_bytes_len(0, 8);
        lemma_le_bytes_len(snod_addr as nat, 8);
        lemma_le_bytes_len(key1 as nat, 8);
    }
    push_le(&mut out, 1, 2);
    push_le(&mut out, u64::MAX, 8);
    push_le(&mut out, u64::MAX, 8);
    push_le(&mut out, 0, 8);
    push_le(&mut out, snod_addr, 8);
    push_le(&mut out, key1, 8);
    out
}

/// The children of a B-tree leaf: the addresses of symbol table nodes, the first at
/// `snod`, one behind the other, and behind each its greatest key.
pub open spec fn children_image(snod: nat, keys: Seq<nat>) -> Seq<u8>
    decreases keys.len(),
{
    if keys.len() == 0 {
        Seq::empty()
    } else {
        children_image(snod, keys.drop_last()) + le_bytes(snod + 328 * (keys.len() - 1) as nat, 8)
            + le_bytes(keys.last(), 8)
    }
}

/// A B-tree leaf over symbol table nodes with these greatest keys.
pub open spec fn leaf_node_image(snod: nat, keys: Seq<nat>) -> Seq<u8> {
    seq!['T' as u8, 'R' as u8, 'E' as u8, 'E' as u8, 0u8, 0u8] + le_bytes(keys.len(), 2)
        + le_bytes(u64::MAX as nat, 8) + le_bytes(u64::MAX as nat, 8) + le_bytes(0, 8)
        + children_image(snod, keys)
}

pub proof fn lemma_children_len(snod: nat, keys: Seq<nat>)
    ensures
        children_image(snod, keys).len() == keys.len() * 16,
    decreases keys.len(),
{
    if keys.len() > 0 {
        lemma_children_len(snod, keys.drop_last());
        lemma_le_bytes_len(snod + 328 * (keys.len() - 1) as nat, 8);
        lemma_le_bytes_len(keys.last(), 8);
    }
}

pub proof fn lemma_leaf_node_len(snod: nat, keys: Seq<nat>)
    ensures
        leaf_node_image(snod, keys).len() == 32 + keys.len() * 16,
{
    lemma_children_len(snod, keys);
    lemma_le_bytes_len(keys.len(), 2);
    lemma_le_bytes_len(u64::MAX as nat, 8);
    lemma_le_bytes_len(0, 8);
}

/// Keys as mathematical values.
pub open spec fn key_values(keys: Seq<u64>) -> Seq<nat> {
    Seq::new(keys.len(), |i: int| keys[i] as nat)
}

/// A B-tree leaf over symbol table nodes.
pub fn leaf_node_bytes(snod_addr: u64, keys: &[u64]) -> (r: Vec<u8>)
    requires
        snod_addr + 328 * keys@.len() <= u64::MAX,
        keys@.len() <= u16::MAX,
    ensures
        r@ == leaf_node_image(snod_addr as nat, key_values(keys@)),
{
    let ghost all = key_values(keys@);
    let mut out: Vec<u8> = vec![0x54u8, 0x52, 0x45, 0x45, 0, 0];
    let ghost head = seq!['T' as u8, 'R' as u8, 'E' as u8, 'E' as u8, 0u8, 0u8] + le_bytes(
        keys@.len(),
        2,
    ) + le_bytes(u64::MAX as nat, 8) + le_bytes(u64::MAX as nat, 8) + le_bytes(0, 8);
    proof {
        assert('T' as u8 == 0x54 && 'R' as u8 == 0x52 && 'E' as u8 == 0x45);
        assert(out@ =~= seq!['T' as u8, 'R' as u8, 'E' as u8, 'E' as u8, 0u8, 0u8]);
    }
    push_le(&mut out, keys.len() as u64, 2);
    push_le(&mut out, u64::MAX, 8);
    push_le(&mut out, u64::MAX, 8);
    push_le(&mut out, 0, 8);
    proof {
        assert(out@ =~= head);
        assert(all.take(0) =~= Seq::<nat>::empty());
        assert(head + Seq::<u8>::empty() =~= head);
    }
    for i in 0..keys.len()
        invariant
            all == key_values(keys@),
            snod_addr + 328 * keys@.len() <= u64::MAX,
            out@ == head + children_image(snod_addr as nat, all.take(i as int)),
    {
        push_le(&mut out, snod_addr + 328 * i as u64, 8);
        push_le(&mut out, keys[i], 8);
        proof {
            assert(all.take(i + 1).drop_last() =~= all.take(i as int));
            assert(all.take(i + 1).last() == keys@[i as int] as nat);
            assert(out@ =~= head + children_image(snod_addr as nat, all.take(i + 1)));
        }
    }
    proof {
        assert(all.take(keys@.len() as int) =~= all);
    }
    out
}

/// Write a B-tree leaf at `base`.
pub fn write_btree_leaf(buf: &mut Vec<u8>, base: usize, snod_addr: u64, key1: u64)
    requires
        base + 48 <= old(buf)@.len(),
    ensures
        final(buf)@ == put(
            old(buf)@,
            base as int,
            btree_leaf_image(snod_addr as nat, key1 as nat),
        ),
{
    let image: Vec<u8> = btree_leaf_bytes(snod_addr, key1);
    put_bytes(buf, base, &image);
}

/// A local heap header: `HEAP`, version 0, three reserved bytes, the size of the
/// data segment, the start of its free part, its address.
pub open spec fn heap_header_image(data_addr: nat, data_size: nat, used: nat) -> Seq<u8> {
    seq!['H' as u8, 'E' as u8, 'A' as u8, 'P' as u8, 0u8, 0u8, 0u8, 0u8] + le_bytes(data_size, 8)
        + le_bytes(used, 8) + le_bytes(data_addr, 8)
}

/// A local heap header.
pub fn heap_header_bytes(data_addr: usize, data_size: usize, used_size: usize) -> (r: Vec<u8>)
    ensures
        r@ == heap_header_image(data_addr as nat, data_size as nat, used_size as nat),
        r@.len() == 32,
{
    let mut out: Vec<u8> = vec![0x48u8, 0x45, 0x41, 0x50, 0, 0, 0, 0];
    proof {
        assert('H' as u8 == 0x48 && 'E' as u8 == 0x45 && 'A' as u8 == 0x41 && 'P' as u8 == 0x50);
        assert(out@ =~= seq!['H' as u8, 'E' as u8, 'A' as u8, 'P' as u8, 0u8, 0u8, 0u8, 0u8]);
        lemma_le_bytes_len(data_size as nat, 8);
        lemma_le_bytes_len(used_size as nat, 8);
        lemma_le_bytes_len(data_addr as nat, 8);
    }
    push_le(&mut out, data_size as u64, 8);
    push_le(&mut out, used_size as u64, 8);
    push_le(&mut out, data_addr as u64, 8);
    out
}

/// Write a local heap header at `base`.
pub fn write_local_heap(
    buf: &mut Vec<u8>,
    base: usize,
    data_addr: usize,
    data_size: usize,
    used_size: usize,
)
    requires
        base + 32 <= old(buf)@.len(),
    ensures
        final(buf)@ == put(
            old(buf)@,
            base as int,
            heap_header_image(data_addr as nat, data_size as nat, used_size as nat),
        ),
{
    let image: Vec<u8> = heap_header_bytes(data_addr, data_size, used_size);
    put_bytes(buf, base, &image);
}

/// One link as a symbol table node holds it.
#[derive(Debug, Clone, Copy)]
pub struct SymbolEntry {
    /// Where the name starts in the local heap.
    pub name_offset: u64,
    /// Address of the object's header.
    pub oh_addr: u64,
    /// For a group, the addresses of its B-tree and its local heap.
    pub group: Option<(u64, u64)>,
}

/// A symbol table entry: name offset, object header address, cache type, four
/// reserved bytes; for a group, cache type 1 and the addresses of its B-tree and
/// local heap, else zeros.
pub open spec fn symbol_image(entry: SymbolEntry) -> Seq<u8> {
    match entry.group {
        None => le_bytes(entry.name_offset as nat, 8) + le_bytes(entry.oh_addr as nat, 8) + zeros(
            24,
        ),
        Some((btree, heap)) => le_bytes(entry.name_offset as nat, 8) + le_bytes(
            entry.oh_addr as nat,
            8,
        ) + le_bytes(1, 4) + zeros(4) + le_bytes(btree as nat, 8) + le_bytes(heap as nat, 8),
    }
}

/// Symbol table entries, one after the other.
pub open spec fn symbols_image(entries: Seq<SymbolEntry>) -> Seq<u8>
    decreases entries.len(),
{
    if entries.len() == 0 {
        Seq::empty()
    } else {
        symbols_image(entries.drop_last()) + symbol_image(entries.last())
    }
}

/// A symbol table node: `SNOD`, version 1, a reserved byte, the number of entries,
/// the entries, zeros for the rest of its room.
pub open spec fn snod_image(entries: Seq<SymbolEntry>) -> Seq<u8> {
    seq!['S' as u8, 'N' as u8, 'O' as u8, 'D' as u8, 1u8, 0u8] + le_bytes(entries.len(), 2)
        + symbols_image(entries) + zeros((320 - entries.len() * 40) as nat)
}

pub proof fn lemma_symbol_len(entry: SymbolEntry)
    ensures
        symbol_image(entry).len() == 40,
{
    lemma_le_bytes_len(entry.name_offset as nat, 8);
    lemma_le_bytes_len(entry.oh_addr as nat, 8);
    lemma_le_bytes_len(1, 4);
    if let Some((btree, heap)) = entry.group {
        lemma_le_bytes_len(btree as nat, 8);
        lemma_le_bytes_len(heap as nat, 8);
    }
}

pub proof fn lemma_symbols_len(entries: Seq<SymbolEntry>)
    ensures
        symbols_image(entries).len() == entries.len() * 40,
    decreases entries.len(),
{
    if entries.len() > 0 {
        lemma_symbols_len(entries.drop_last());
        lemma_symbol_len(entries.last());
    }
}

fn push_symbol(out: &mut Vec<u8>, entry: SymbolEntry)
    ensures
        final(out)@ == old(out)@ + symbol_image(entry),
{
    let ghost before = out@;
    push_le(out, entry.name_offset, 8);
    push_le(out, entry.oh_addr, 8);
    match entry.group {
        None => {
            push_zeros(out, 24);
        },
        Some((btree, heap)) => {
            push_le(out, 1, 4);
            push_zeros(out, 4);
            push_le(out, btree, 8);
            push_le(out, heap, 8);
        },
    }
    proof {
        assert(out@ =~= before + symbol_image(entry));
    }
}

/// A symbol table node.
pub fn snod_bytes(entries: &[SymbolEntry]) -> (r: Vec<u8>)
    requires
        entries@.len() <= 8,
    ensures
        r@ == snod_image(entries@),
        r@.len() == 328,
{
    let mut out: Vec<u8> = vec![0x53u8, 0x4e, 0x4f, 0x44, 1, 0];
    let ghost head = seq!['S' as u8, 'N' as u8, 'O' as u8, 'D' as u8, 1u8, 0u8] + le_bytes(
        entries@.len(),
        2,
    );
    proof {
        assert('S' as u8 == 0x53 && 'N' as u8 == 0x4e && 'O' as u8 == 0x4f && 'D' as u8 == 0x44);
        assert(out@ =~= seq!['S' as u8, 'N' as u8, 'O' as u8, 'D' as u8, 1u8, 0u8]);
        lemma_le_bytes_len(entries@.len(), 2);
        lemma_symbols_len(entries@);
        assert(entries@.take(0) =~= Seq::<SymbolEntry>::empty());
        assert(head + Seq::<u8>::empty() =~= head);
    }
    push_le(&mut out, entries.len() as u64, 2);
    for i in 0..entries.len()
        invariant
            out@ == head + symbols_image(entries@.take(i as int)),
    {
        push_symbol(&mut out, entries[i]);
        proof {
            assert(entries@.take(i + 1).drop_last() =~= entries@.take(i as int));
            assert(out@ =~= head + symbols_image(entries@.take(i + 1)));
        }
    }
    proof {
        assert(entries@.take(entries@.len() as int) =~= entries@);
    }
    push_zeros(&mut out, 320 - entries.len() * 40);
    out
}

/// The entries in symbol table node `i`: eight, or what is left.
pub open spec fn node_entries(entries: Seq<SymbolEntry>, i: int) -> Seq<SymbolEntry> {
    let end = if 8 * i + 8 < entries.len() {
        8 * i + 8
    } else {
        entries.len() as int
    };
    entries.subrange(8 * i, end)
}

/// The first `k` symbol table nodes over these entries.
pub open spec fn snods_image(entries: Seq<SymbolEntry>, k: nat) -> Seq<u8>
    decreases k,
{
    if k == 0 {
        Seq::empty()
    } else {
        snods_image(entries, (k - 1) as nat) + snod_image(node_entries(entries, k - 1))
    }
}

pub proof fn lemma_snod_len(entries: Seq<SymbolEntry>)
    requires
        entries.len() <= 8,
    ensures
        snod_image(entries).len() == 328,
{
    lemma_symbols_len(entries);
    lemma_le_bytes_len(entries.len(), 2);
}

pub proof fn lemma_snods_len(entries: Seq<SymbolEntry>, k: nat)
    requires
        8 * (k - 1) <= entries.len(),
    ensures
        snods_image(entries, k).len() == 328 * k,
    decreases k,
{
    if k > 0 {
        lemma_snods_len(entries, (k - 1) as nat);
        lemma_snod_len(node_entries(entries, k - 1));
    }
}

/// Write a symbol table node at `snod_addr`.
pub fn write_snod(buf: &mut Vec<u8>, snod_addr: usize, entries: &[SymbolEntry])
    requires
        entries@.len() <= 8,
        snod_addr + 328 <= old(buf)@.len(),
    ensures
        final(buf)@ == put(old(buf)@, snod_addr as int, snod_image(entries@)),
{
    let image: Vec<u8> = snod_bytes(entries);
    put_bytes(buf, snod_addr, &image);
}

} // verus!
