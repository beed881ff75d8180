//! The members of groups.
//!
//! A group keeps its members either in a B-tree of symbol table nodes, with their
//! names in a local heap, or as link messages in its object header.

use vstd::prelude::*;
use crate::btree::leaves_at;
use crate::bytes::{le_at, to_usize};
use crate::dtype::views;
use crate::error::{outcomes, ErrorKind, OxiH5Error};
use crate::header::{messages_at, parse_messages, Message, MessageModel};
use crate::heap::{local_heap_at, name_in, LocalHeap};
use crate::message::parse_symbol_table;
use crate::paths::{strip_slashes, without_slashes};
use crate::snod::{symbols_at, SymTabEntry};
use crate::utf8::same_text;

verus! {

/// The type of a symbol table message.
pub const MSG_SYMBOL_TABLE: u16 = 0x0011;

/// The type of a link message.
pub const MSG_LINK: u16 = 0x0006;

/// The type of the message that says where a group keeps links outside its header.
pub const MSG_LINK_INFO: u16 = 0x0002;

/// The first entry of that name from `i` on, by its address, or the first name that
/// cannot be read.
pub open spec fn named_entry(
    heap: Seq<u8>,
    entries: Seq<SymTabEntry>,
    name: Seq<char>,
    i: int,
) -> Option<Result<u64, ErrorKind>>
    decreases entries.len() - i,
{
    if i < 0 || i >= entries.len() {
        None
    } else {
        match name_in(heap, entries[i].name_offset as int) {
            Err(kind) => Some(Err(kind)),
            Ok(found) => if found == name {
                Some(Ok(entries[i].object_header_address))
            } else {
                named_entry(heap, entries, name, i + 1)
            },
        }
    }
}

/// The member of that name in the symbol table nodes from `i` on.
pub open spec fn member_in(
    file: Seq<u8>,
    heap: Seq<u8>,
    leaves: Seq<u64>,
    name: Seq<char>,
    i: int,
) -> Result<u64, ErrorKind>
    decreases leaves.len() - i,
{
    if i < 0 || i >= leaves.len() {
        Err(ErrorKind::NotFound)
    } else {
        match symbols_at(file, leaves[i] as int) {
            Err(kind) => Err(kind),
            Ok(entries) => match named_entry(heap, entries, name, 0) {
                Some(found) => found,
                None => member_in(file, heap, leaves, name, i + 1),
            },
        }
    }
}

/// The address of the member of that name of the group with that B-tree and local
/// heap.
pub open spec fn member_at(file: Seq<u8>, btree: u64, heap: u64, name: Seq<char>) -> Result<
    u64,
    ErrorKind,
> {
    match leaves_at(file, btree) {
        Err(kind) => Err(kind),
        Ok(leaves) => match local_heap_at(file, heap as int) {
            Err(kind) => Err(kind),
            Ok(names) => member_in(file, names, leaves, name, 0),
        },
    }
}

/// The name at a 64-bit offset.
fn heap_name(heap: &LocalHeap, offset: u64) -> (r: Result<&str, OxiH5Error>)
    ensures
        match (r, name_in(heap@, offset as int)) {
            (Ok(name), Ok(chars)) => name@ == chars,
            (Err(e), Err(kind)) => e@ == kind,
            _ => false,
        },
{
    assert(heap.data.len() <= usize::MAX);
    match to_usize(offset) {
        Some(at) => heap.name_at(at),
        None => Err(OxiH5Error::Format("heap name offset out of range".to_string())),
    }
}

/// Find the member of that name, dataset or group, of the group with that B-tree and
/// local heap; returns the address of its object header.
pub fn find_dataset(file_data: &[u8], btree_address: u64, heap_address: u64, name: &str) -> (r:
    Result<u64, OxiH5Error>)
    ensures
        match (r, member_at(file_data@, btree_address, heap_address, name@)) {
            (Ok(address), Ok(found)) => address == found,
            (Err(e), Err(kind)) => e@ == kind,
            _ => false,
        },
{
    let tree = crate::btree::parse(file_data, btree_address)?;
    let local_heap: LocalHeap = crate::heap::parse(file_data, heap_address)?;
    let ghost leaves = tree.leaf_addresses@;
    let n: usize = tree.leaf_addresses.len();
    for i in 0..n
        invariant
            n == leaves.len(),
            leaves == tree.leaf_addresses@,
            member_at(file_data@, btree_address, heap_address, name@) == member_in(
                file_data@,
                local_heap@,
                leaves,
                name@,
                i as int,
            ),
    {
        let entries: Vec<SymTabEntry> = crate::snod::parse(file_data, tree.leaf_addresses[i])?;
        let count: usize = entries.len();
        for j in 0..count
            invariant
                count == entries@.len(),
                i < leaves.len(),
                symbols_at(file_data@, leaves[i as int] as int) == Ok::<
                    Seq<SymTabEntry>,
                    ErrorKind,
                >(entries@),
                member_at(file_data@, btree_address, heap_address, name@) == member_in(
                    file_data@,
                    local_heap@,
                    leaves,
                    name@,
                    i as int,
                ),
                named_entry(local_heap@, entries@, name@, 0) == named_entry(
                    local_heap@,
                    entries@,
                    name@,
                    j as int,
                ),
        {
            let found: &str = heap_name(&local_heap, entries[j].name_offset)?;
            if same_text(found, name) {
                return Ok(entries[j].object_header_address);
            }
        }
    }
    Err(OxiH5Error::NotFound(name.to_string()))
}

/// Whether one of the messages has that type.
pub open spec fn has_type(messages: Seq<MessageModel>, msg_type: u16) -> bool {
    exists|i: int| 0 <= i < messages.len() && (#[trigger] messages[i]).msg_type == msg_type
}

/// Whether the object header at `addr` can be read and has a message of that type.
pub open spec fn header_has(file: Seq<u8>, addr: u64, msg_type: u16) -> bool {
    match messages_at(file, addr as int) {
        Ok(messages) => has_type(messages, msg_type),
        Err(_) => false,
    }
}

/// Whether one of the messages has that type.
pub fn any_of_type(messages: &[Message], msg_type: u16) -> (r: bool)
    ensures
        r == has_type(views(messages@), msg_type),
{
    for i in 0..messages.len()
        invariant
            forall|k: int| 0 <= k < i ==> (#[trigger] messages@[k]).msg_type != msg_type,
    {
        if messages[i].msg_type == msg_type {
            assert(views(messages@)[i as int].msg_type == msg_type);
            return true;
        }
    }
    proof {
        assert forall|k: int| 0 <= k < messages@.len() implies (#[trigger] views(
            messages@,
        )[k]).msg_type != msg_type by {
            assert(messages@[k].msg_type != msg_type);
        }
    }
    false
}

/// Whether the object header at `address` can be read and has a message of that type.
pub fn header_has_type(file_data: &[u8], address: u64, msg_type: u16) -> (r: bool)
    ensures
        r == header_has(file_data@, address, msg_type),
{
    match parse_messages(file_data, address) {
        Ok(messages) => any_of_type(&messages, msg_type),
        Err(_) => false,
    }
}

/// Whether a group keeps its links as messages: it says where it keeps links.
pub open spec fn keeps_links(file: Seq<u8>, addr: u64) -> bool {
    header_has(file, addr, MSG_LINK_INFO)
}

/// Whether the object at `address` is a group that keeps its links as messages.
pub fn is_new_style_group(file_data: &[u8], address: u64) -> (r: bool)
    ensures
        r == keeps_links(file_data@, address),
{
    header_has_type(file_data, address, MSG_LINK_INFO)
}

/// The addresses of the B-tree and the local heap in the first usable symbol table
/// message from `i` on.
pub open spec fn symbol_table_from(messages: Seq<MessageModel>, i: int) -> Option<(u64, u64)>
    decreases messages.len() - i,
{
    if i < 0 || i >= messages.len() {
        None
    } else if messages[i].msg_type == MSG_SYMBOL_TABLE && messages[i].data.len() >= 16 {
        Some((le_at(messages[i].data, 0, 8) as u64, le_at(messages[i].data, 8, 8) as u64))
    } else {
        symbol_table_from(messages, i + 1)
    }
}

/// The addresses of the B-tree and the local heap in the messages of a group.
pub open spec fn symbol_table_in(messages: Seq<MessageModel>) -> Option<(u64, u64)> {
    symbol_table_from(messages, 0)
}

/// Find the addresses of the B-tree and the local heap in the messages of a group.
pub fn find_symbol_table_addresses(messages: &[Message]) -> (r: Option<(u64, u64)>)
    ensures
        r == symbol_table_in(views(messages@)),
{
    let ghost all = views(messages@);
    for i in 0..messages.len()
        invariant
            all == views(messages@),
            symbol_table_in(all) == symbol_table_from(all, i as int),
    {
        assert(all[i as int] == messages@[i as int]@);
        if messages[i].msg_type == MSG_SYMBOL_TABLE {
            match parse_symbol_table(&messages[i].data) {
                Ok(info) => {
                    return Some((info.btree_address, info.heap_address));
                },
                Err(_) => {},
            }
        }
    }
    None
}

/// The names of the first `k` entries that are groups, or that are not. Entries that
/// lead nowhere or have no name are left out; leading slashes are dropped.
pub open spec fn listed_entries(
    file: Seq<u8>,
    heap: Seq<u8>,
    entries: Seq<SymTabEntry>,
    want_groups: bool,
    k: nat,
) -> Result<Seq<Seq<char>>, ErrorKind>
    decreases k,
{
    if k == 0 {
        Ok(Seq::empty())
    } else {
        match listed_entries(file, heap, entries, want_groups, (k - 1) as nat) {
            Err(kind) => Err(kind),
            Ok(names) => {
                let entry = entries[k - 1];
                let address = entry.object_header_address;
                if address == u64::MAX {
                    Ok(names)
                } else {
                    match name_in(heap, entry.name_offset as int) {
                        Err(kind) => Err(kind),
                        Ok(name) => if without_slashes(name).len() > 0 && want_groups
                            == header_has(file, address, MSG_SYMBOL_TABLE) {
                            Ok(names.push(without_slashes(name)))
                        } else {
                            Ok(names)
                        },
                    }
                }
            },
        }
    }
}

/// The names of the groups, or of the other members, in the first `k` symbol table
/// nodes.
pub open spec fn listed_leaves(
    file: Seq<u8>,
    heap: Seq<u8>,
    leaves: Seq<u64>,
    want_groups: bool,
    k: nat,
) -> Result<Seq<Seq<char>>, ErrorKind>
    decreases k,
{
    if k == 0 {
        Ok(Seq::empty())
    } else {
        match listed_leaves(file, heap, leaves, want_groups, (k - 1) as nat) {
            Err(kind) => Err(kind),
            Ok(front) => match symbols_at(file, leaves[k - 1] as int) {
                Err(kind) => Err(kind),
                Ok(entries) => match listed_entries(
                    file,
                    heap,
                    entries,
                    want_groups,
                    entries.len(),
                ) {
                    Err(kind) => Err(kind),
                    Ok(names) => Ok(front + names),
                },
            },
        }
    }
}

/// The names of the groups, or of the other members, of the group with that B-tree
/// and local heap.
pub open spec fn listed(file: Seq<u8>, btree: u64, heap: u64, want_groups: bool) -> Result<
    Seq<Seq<char>>,
    ErrorKind,
> {
    match leaves_at(file, btree) {
        Err(kind) => Err(kind),
        Ok(leaves) => match local_heap_at(file, heap as int) {
            Err(kind) => Err(kind),
            Ok(names) => listed_leaves(file, names, leaves, want_groups, leaves.len()),
        },
    }
}

proof fn lemma_listed_entries_fail(
    file: Seq<u8>,
    heap: Seq<u8>,
    entries: Seq<SymTabEntry>,
    want_groups: bool,
    i: nat,
    k: nat,
)
    requires
        i <= k,
        listed_entries(file, heap, entries, want_groups, i) is Err,
    ensures
        listed_entries(file, heap, entries, want_groups, k) == listed_entries(
            file,
            heap,
            entries,
            want_groups,
            i,
        ),
    decreases k,
{
    if i < k {
        lemma_listed_entries_fail(file, heap, entries, want_groups, i, (k - 1) as nat);
    }
}

proof fn lemma_listed_leaves_fail(
    file: Seq<u8>,
    heap: Seq<u8>,
    leaves: Seq<u64>,
    want_groups: bool,
    i: nat,
    k: nat,
)
    requires
        i <= k,
        listed_leaves(file, heap, leaves, want_groups, i) is Err,
    ensures
        listed_leaves(file, heap, leaves, want_groups, k) == listed_leaves(
            file,
            heap,
            leaves,
            want_groups,
            i,
        ),
    decreases k,
{
    if i < k {
        lemma_listed_leaves_fail(file, heap, leaves, want_groups, i, (k - 1) as nat);
    }
}

fn list_entries(
    file_data: &[u8],
    heap: &LocalHeap,
    entries: &[SymTabEntry],
    want_groups: bool,
) -> (r: Result<Vec<String>, OxiH5Error>)
    ensures
        outcomes(r) == listed_entries(
            file_data@,
            heap@,
            entries@,
            want_groups,
            entries@.len(),
        ),
{
    let mut names: Vec<String> = Vec::new();
    let n: usize = entries.len();
    proof {
        assert(views(names@) =~= Seq::empty());
    }
    for i in 0..n
        invariant
            n == entries@.len(),
            listed_entries(file_data@, heap@, entries@, want_groups, i as nat) == Ok::<
                Seq<Seq<char>>,
                ErrorKind,
            >(views(names@)),
    {
        let ghost before = views(names@);
        let entry: SymTabEntry = entries[i];
        if entry.object_header_address != u64::MAX {
            match heap_name(heap, entry.name_offset) {
                Err(e) => {
                    proof {
                        lemma_listed_entries_fail(
                            file_data@,
                            heap@,
                            entries@,
                            want_groups,
                            (i + 1) as nat,
                            n as nat,
                        );
                    }
                    return Err(e);
                },
                Ok(raw) => {
                    let name: String = strip_slashes(raw).to_string();
                    if name.as_str().unicode_len() > 0 && want_groups == header_has_type(
                        file_data,
                        entry.object_header_address,
                        MSG_SYMBOL_TABLE,
                    ) {
                        names.push(name);
                        proof {
                            assert(views(names@) =~= before.push(name@));
                        }
                    }
                },
            }
        }
    }
    Ok(names)
}

/// List the groups, or the other members, of the group with that B-tree and local
/// heap.
pub fn list_members(file_data: &[u8], btree_address: u64, heap_address: u64, want_groups: bool) -> (r:
    Result<Vec<String>, OxiH5Error>)
    ensures
        outcomes(r) == listed(file_data@, btree_address, heap_address, want_groups),
{
    let tree = crate::btree::parse(file_data, btree_address)?;
    let local_heap: LocalHeap = crate::heap::parse(file_data, heap_address)?;
    let ghost leaves = tree.leaf_addresses@;
    let mut names: Vec<String> = Vec::new();
    let n: usize = tree.leaf_addresses.len();
    proof {
        assert(views(names@) =~= Seq::empty());
    }
    for i in 0..n
        invariant
            n == leaves.len(),
            leaves == tree.leaf_addresses@,
            listed(file_data@, btree_address, heap_address, want_groups) == listed_leaves(
                file_data@,
                local_heap@,
                leaves,
                want_groups,
                n as nat,
            ),
            listed_leaves(file_data@, local_heap@, leaves, want_groups, i as nat) == Ok::<
                Seq<Seq<char>>,
                ErrorKind,
            >(views(names@)),
    {
        let ghost before = views(names@);
        let found: Result<Vec<String>, OxiH5Error> = match crate::snod::parse(
            file_data,
            tree.leaf_addresses[i],
        ) {
            Err(e) => Err(e),
            Ok(entries) => list_entries(file_data, &local_heap, &entries, want_groups),
        };
        match found {
            Err(e) => {
                proof {
                    lemma_listed_leaves_fail(
                        file_data@,
                        local_heap@,
                        leaves,
                        want_groups,
                        (i + 1) as nat,
                        n as nat,
                    );
                }
                return Err(e);
            },
            Ok(mut more) => {
                let ghost new = views(more@);
                names.append(&mut more);
                proof {
                    assert(views(names@) =~= before + new);
                }
            },
        }
    }
    Ok(names)
}

} // verus!
