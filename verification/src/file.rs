//! Files and groups: finding objects by their paths, and reading them.

use vstd::prelude::*;
use vstd::string::*;
use crate::attr_view::AttrView;
use crate::chunk_reader::ChunkIndexCache;
use crate::chunk_record::RecordModel;
use crate::dataset::{Dataset, DatasetModel};
use crate::dataset_reader::{
    attributes_at, dataset_read, dataset_selection_read, dataset_slice_read,
    hyperslab_dataset_at_header, read_attributes_from_header, read_dataset_from_object_header,
    slice_dataset_at_header,
};
use crate::dims::{exact_total, product};
use crate::dtype::{views, Dtype, DtypeModel};
use crate::describe::{hex, hex_text};
use crate::error::{outcome, outcomes, text, ErrorKind, OxiH5Error};
use crate::filters;
use crate::group::{
    any_of_type, find_dataset, find_symbol_table_addresses, has_type, header_has, header_has_type,
    is_new_style_group, keeps_links, list_members, listed, member_at, symbol_table_in,
    MSG_LINK_INFO, MSG_SYMBOL_TABLE,
};
use crate::header::{messages_at, parse_messages, Message, MessageModel};
use crate::hyperslab::{DimSelection, Hyperslab};
use crate::link_msg::{LinkModel, ParsedLink};
use crate::links::{
    find_link, link_named, links_at, list_new_style_links, resolve_soft_link_target,
    resolve_soft_link_to_header, soft_header, soft_target, SoftTarget, TargetModel,
};
use crate::object::{Attribute, FilterPipeline, Link};
use crate::paths::{names_along, split_names};
use crate::superblock::{superblock_of, Superblock};
use crate::utf8::same_text;
use crate::values::{decode_vlen_strings, file_heaps, vlen_strings_in};
use crate::vds::{parse_virtual_dataset, virtual_at, VirtualDataset, VirtualModel};

verus! {

/// Where a group keeps its members: in a B-tree with a local heap, or as messages in
/// its own header.
pub struct Place {
    /// The address of the group's object header.
    pub header: u64,
    /// The addresses of the B-tree and the local heap.
    pub table: Option<(u64, u64)>,
}

/// The group whose object header is at `addr`.
pub open spec fn place_at(file: Seq<u8>, addr: u64) -> Result<Place, ErrorKind> {
    match messages_at(file, addr as int) {
        Err(kind) => Err(kind),
        Ok(messages) => Ok(Place { header: addr, table: symbol_table_in(messages) }),
    }
}

/// The root group.
pub open spec fn root_place(file: Seq<u8>) -> Result<Place, ErrorKind> {
    match superblock_of(file) {
        Err(kind) => Err(kind),
        Ok(sb) => place_at(file, sb.root_object_header_address),
    }
}

/// The group that the names lead to, through groups with B-trees only.
pub open spec fn table_group(
    file: Seq<u8>,
    header: u64,
    table: (u64, u64),
    names: Seq<Seq<char>>,
) -> Result<(u64, (u64, u64)), ErrorKind>
    decreases names.len(),
{
    if names.len() == 0 {
        Ok((header, table))
    } else {
        match member_at(file, table.0, table.1, names[0]) {
            Err(kind) => Err(kind),
            Ok(addr) => match messages_at(file, addr as int) {
                Err(kind) => Err(kind),
                Ok(messages) => match symbol_table_in(messages) {
                    None => Err(ErrorKind::NotFound),
                    Some(next) => table_group(file, addr, next, names.skip(1)),
                },
            },
        }
    }
}

/// The member of that name of a group that keeps its links as messages. An external
/// link is not followed.
pub open spec fn linked_child(file: Seq<u8>, parent: u64, name: Seq<char>) -> Result<
    u64,
    ErrorKind,
> {
    match superblock_of(file) {
        Err(kind) => Err(kind),
        Ok(sb) => match links_at(file, parent, sb.size_of_offsets) {
            Err(kind) => Err(kind),
            Ok(links) => match link_named(links, name) {
                None => Err(ErrorKind::NotFound),
                Some(LinkModel::Hard { address }) => Ok(address),
                Some(LinkModel::Soft { path }) => soft_header(
                    file,
                    sb.root_object_header_address,
                    path,
                    Seq::empty(),
                ),
                Some(LinkModel::External { .. }) => Err(ErrorKind::NotImplemented),
            },
        },
    }
}

/// The object that the names lead to, from a group that keeps its links as messages.
pub open spec fn linked_group(file: Seq<u8>, header: u64, names: Seq<Seq<char>>) -> Result<
    u64,
    ErrorKind,
>
    decreases names.len(),
{
    if names.len() == 0 {
        Ok(header)
    } else {
        match linked_child(file, header, names[0]) {
            Err(kind) => Err(kind),
            Ok(next) => linked_group(file, next, names.skip(1)),
        }
    }
}

/// Follow names through groups with B-trees; returns the last group's header, B-tree
/// and local heap.
fn walk_tables(file_data: &[u8], header: u64, btree: u64, heap: u64, names: &[&str]) -> (r: Result<
    (u64, u64, u64),
    OxiH5Error,
>)
    ensures
        match (r, table_group(file_data@, header, (btree, heap), views(names@))) {
            (Ok((a, b, h)), Ok((addr, table))) => a == addr && table == (b, h),
            (Err(e), Err(kind)) => e@ == kind,
            _ => false,
        },
{
    let ghost all = views(names@);
    let mut addr: u64 = header;
    let mut tree: u64 = btree;
    let mut names_heap: u64 = heap;
    let n: usize = names.len();
    proof {
        assert(all.skip(0) =~= all);
    }
    for i in 0..n
        invariant
            n == names@.len(),
            all == views(names@),
            table_group(file_data@, header, (btree, heap), all) == table_group(
                file_data@,
                addr,
                (tree, names_heap),
                all.skip(i as int),
            ),
    {
        proof {
            assert(all.skip(i as int)[0] == names@[i as int]@);
            assert(all.skip(i as int).skip(1) =~= all.skip(i + 1));
        }
        let next: u64 = find_dataset(file_data, tree, names_heap, names[i])?;
        let messages: Vec<Message> = parse_messages(file_data, next)?;
        match find_symbol_table_addresses(&messages) {
            None => {
                return Err(OxiH5Error::NotFound(text(&["'", names[i], "' is not a group"])));
            },
            Some((b, h)) => {
                addr = next;
                tree = b;
                names_heap = h;
            },
        }
    }
    proof {
        assert(all.skip(n as int).len() == 0);
    }
    Ok((addr, tree, names_heap))
}

/// Follow names through groups with B-trees, from the group with that B-tree and local
/// heap; returns those of the last group.
pub fn navigate_to_group(file_data: &[u8], start_btree: u64, start_heap: u64, segments: &[&str]) -> (r:
    Result<(u64, u64), OxiH5Error>)
    ensures
        match (r, table_group(file_data@, 0, (start_btree, start_heap), views(segments@))) {
            (Ok(table), Ok((_, found))) => table == found,
            (Err(e), Err(kind)) => e@ == kind,
            _ => false,
        },
{
    let (_, btree, heap): (u64, u64, u64) = walk_tables(
        file_data,
        0,
        start_btree,
        start_heap,
        segments,
    )?;
    Ok((btree, heap))
}

/// Find a member by name in a group that keeps its links as messages; returns the
/// address of its header.
///
/// Soft links are followed; an external link is not.
pub fn find_new_style_child(file_data: &[u8], parent_header_addr: u64, name: &str) -> (r: Result<
    u64,
    OxiH5Error,
>)
    ensures
        match (r, linked_child(file_data@, parent_header_addr, name@)) {
            (Ok(a), Ok(b)) => a == b,
            (Err(e), Err(kind)) => e@ == kind,
            _ => false,
        },
{
    let sb: Superblock = crate::superblock::parse(file_data)?;
    let links: Vec<ParsedLink> = list_new_style_links(
        file_data,
        parent_header_addr,
        sb.size_of_offsets,
    )?;
    match find_link(&links, name) {
        None => Err(OxiH5Error::NotFound(name.to_string())),
        Some(Link::Hard { address }) => Ok(*address),
        Some(Link::Soft { path }) => {
            let mut visited: Vec<String> = Vec::new();
            proof {
                assert(views(visited@) =~= Seq::empty());
            }
            resolve_soft_link_to_header(
                file_data,
                sb.root_object_header_address,
                path.as_str(),
                &mut visited,
            )
        },
        Some(Link::External { file, .. }) => Err(
            OxiH5Error::NotImplemented(
                text(&["external link '", name, "' in file '", file.as_str(), "' not followed"]),
            ),
        ),
    }
}

/// Follow names from a group that keeps its links as messages.
fn walk_links(file_data: &[u8], header: u64, names: &[&str]) -> (r: Result<u64, OxiH5Error>)
    ensures
        match (r, linked_group(file_data@, header, views(names@))) {
            (Ok(a), Ok(b)) => a == b,
            (Err(e), Err(kind)) => e@ == kind,
            _ => false,
        },
{
    let ghost all = views(names@);
    let mut current: u64 = header;
    let n: usize = names.len();
    proof {
        assert(all.skip(0) =~= all);
    }
    for i in 0..n
        invariant
            n == names@.len(),
            all == views(names@),
            linked_group(file_data@, header, all) == linked_group(
                file_data@,
                current,
                all.skip(i as int),
            ),
    {
        proof {
            assert(all.skip(i as int)[0] == names@[i as int]@);
            assert(all.skip(i as int).skip(1) =~= all.skip(i + 1));
        }
        current = find_new_style_child(file_data, current, names[i])?;
    }
    proof {
        assert(all.skip(n as int).len() == 0);
    }
    Ok(current)
}

/// Read the dataset of that name in the group with that B-tree and local heap.
pub fn read_dataset_from_group<
    P: Fn(&[u8], &FilterPipeline, u32, usize) -> Result<Vec<u8>, OxiH5Error>,
>(
    file_data: &[u8],
    btree_address: u64,
    heap_address: u64,
    name: &str,
    cache: &mut ChunkIndexCache,
    apply_pipeline: &P,
) -> (r: Result<Dataset, OxiH5Error>)
    requires
        forall|raw: &[u8], pipeline: &FilterPipeline, mask: u32, es: usize|
            apply_pipeline.requires((raw, pipeline, mask, es)),
    ensures
        match member_at(file_data@, btree_address, heap_address, name@) {
            Err(kind) => r is Err && r->Err_0@ == kind && final(cache)@ == old(cache)@,
            Ok(addr) => dataset_read(
                file_data@,
                addr,
                *apply_pipeline,
                old(cache)@,
                final(cache)@,
                r,
            ),
        },
{
    let header_addr: u64 = find_dataset(file_data, btree_address, heap_address, name)?;
    read_dataset_from_object_header(file_data, header_addr, name, cache, apply_pipeline)
}

/// Where the member of that name is that a group's link messages name: here, or in
/// another file.
pub open spec fn linked_target(file: Seq<u8>, parent: u64, name: Seq<char>) -> Result<
    TargetModel,
    ErrorKind,
> {
    match superblock_of(file) {
        Err(kind) => Err(kind),
        Ok(sb) => match links_at(file, parent, sb.size_of_offsets) {
            Err(kind) => Err(kind),
            Ok(links) => match link_named(links, name) {
                None => Err(ErrorKind::NotFound),
                Some(LinkModel::Hard { address }) => Ok(TargetModel::Local(address)),
                Some(LinkModel::Soft { path }) => soft_target(
                    file,
                    sb.root_object_header_address,
                    path,
                    Seq::empty(),
                ).0,
                Some(LinkModel::External { file, path }) => Ok(TargetModel::External { file, path }),
            },
        },
    }
}

/// Find where the member of that name is, of a group that keeps its links as messages:
/// here, or in another file.
pub fn resolve_new_style_target(file_data: &[u8], parent_header_addr: u64, name: &str) -> (r:
    Result<SoftTarget, OxiH5Error>)
    ensures
        outcome(r) == linked_target(file_data@, parent_header_addr, name@),
{
    let sb: Superblock = crate::superblock::parse(file_data)?;
    let links: Vec<ParsedLink> = list_new_style_links(
        file_data,
        parent_header_addr,
        sb.size_of_offsets,
    )?;
    match find_link(&links, name) {
        None => Err(OxiH5Error::NotFound(name.to_string())),
        Some(Link::Hard { address }) => Ok(SoftTarget::Local(*address)),
        Some(Link::Soft { path }) => {
            let mut visited: Vec<String> = Vec::new();
            proof {
                assert(views(visited@) =~= Seq::empty());
            }
            resolve_soft_link_target(
                file_data,
                sb.root_object_header_address,
                path.as_str(),
                &mut visited,
            )
        },
        Some(Link::External { file, path }) => Ok(
            SoftTarget::External { file: file.clone(), path: path.clone() },
        ),
    }
}

/// The address of the member of that name that a hard link leads to. Other links are
/// not followed.
pub open spec fn hard_child(file: Seq<u8>, parent: u64, name: Seq<char>) -> Result<
    u64,
    ErrorKind,
> {
    match superblock_of(file) {
        Err(kind) => Err(kind),
        Ok(sb) => match links_at(file, parent, sb.size_of_offsets) {
            Err(kind) => Err(kind),
            Ok(links) => match link_named(links, name) {
                None => Err(ErrorKind::NotFound),
                Some(LinkModel::Hard { address }) => Ok(address),
                _ => Err(ErrorKind::NotImplemented),
            },
        },
    }
}

/// Find the address of the member of that name that a hard link leads to.
pub fn resolve_new_style_header_address(file_data: &[u8], parent_header_addr: u64, name: &str) -> (r:
    Result<u64, OxiH5Error>)
    ensures
        match (r, hard_child(file_data@, parent_header_addr, name@)) {
            (Ok(a), Ok(b)) => a == b,
            (Err(e), Err(kind)) => e@ == kind,
            _ => false,
        },
{
    let sb: Superblock = crate::superblock::parse(file_data)?;
    let links: Vec<ParsedLink> = list_new_style_links(
        file_data,
        parent_header_addr,
        sb.size_of_offsets,
    )?;
    match find_link(&links, name) {
        None => Err(OxiH5Error::NotFound(name.to_string())),
        Some(Link::Hard { address }) => Ok(*address),
        Some(_) => Err(
            OxiH5Error::NotImplemented(
                text(&["link type not supported for lazy slice of '", name, "'"]),
            ),
        ),
    }
}

/// The group that the names lead to from the root group, and how the last name is to
/// be looked up there.
pub open spec fn parent_of(file: Seq<u8>, names: Seq<Seq<char>>) -> Result<Place, ErrorKind> {
    match root_place(file) {
        Err(kind) => Err(kind),
        Ok(root) => if names.len() == 0 {
            Err(ErrorKind::NotFound)
        } else {
            match root.table {
                Some(table) => match table_group(file, root.header, table, names.drop_last()) {
                    Err(kind) => Err(kind),
                    Ok((header, table)) => Ok(Place { header, table: Some(table) }),
                },
                None => match linked_group(file, root.header, names.drop_last()) {
                    Err(kind) => Err(kind),
                    Ok(header) => Ok(Place { header, table: None }),
                },
            }
        },
    }
}

/// Where the dataset of that path is: here, or in another file.
pub open spec fn dataset_target(file: Seq<u8>, path: Seq<char>) -> Result<TargetModel, ErrorKind> {
    let names = names_along(path);
    match parent_of(file, names) {
        Err(kind) => Err(kind),
        Ok(place) => member_target(file, place, names.last()),
    }
}

/// Where the dataset of that name in a group is: here, or in another file.
pub open spec fn member_target(file: Seq<u8>, place: Place, name: Seq<char>) -> Result<
    TargetModel,
    ErrorKind,
> {
    match place.table {
        Some((btree, heap)) => match member_at(file, btree, heap, name) {
            Err(kind) => Err(kind),
            Ok(addr) => Ok(TargetModel::Local(addr)),
        },
        None => linked_target(file, place.header, name),
    }
}

/// The address of the header of the dataset of that path, which only hard links may
/// lead to.
pub open spec fn dataset_header(file: Seq<u8>, path: Seq<char>) -> Result<u64, ErrorKind> {
    let names = names_along(path);
    match parent_of(file, names) {
        Err(kind) => Err(kind),
        Ok(place) => member_header(file, place, names.last()),
    }
}

/// The address of the header of the dataset of that name in a group.
pub open spec fn member_header(file: Seq<u8>, place: Place, name: Seq<char>) -> Result<
    u64,
    ErrorKind,
> {
    match place.table {
        Some((btree, heap)) => member_at(file, btree, heap, name),
        None => hard_child(file, place.header, name),
    }
}

impl Place {
    /// Whether machine values describe this group: new-style groups have no B-tree.
    pub open spec fn is(self, header: u64, btree: u64, heap: u64, new_style: bool) -> bool {
        &&& self.header == header
        &&& match self.table {
            Some(table) => !new_style && table == (btree, heap),
            None => new_style && btree == 0 && heap == 0,
        }
    }
}

/// A group of a file.
pub struct Group<'a> {
    /// The last name of its path, or `/` for the root group.
    pub name: String,
    pub object_header_address: u64,
    pub btree_address: u64,
    pub heap_address: u64,
    /// Whether it keeps its links as messages in its own header.
    pub new_style: bool,
    pub file_data: &'a [u8],
    /// Chunk indexes that were read before through this group.
    pub chunk_cache: ChunkIndexCache,
}

impl<'a> Group<'a> {
    /// Whether this is that group of that file, under that name.
    pub open spec fn stands_for(self, file: Seq<u8>, name: Seq<char>, place: Place) -> bool {
        &&& self.file_data@ == file
        &&& self.name@ == name
        &&& place.is(
            self.object_header_address,
            self.btree_address,
            self.heap_address,
            self.new_style,
        )
        &&& self.chunk_cache@ == Map::<(u64, usize), Seq<RecordModel>>::empty()
    }

    /// Where this group keeps its members.
    pub open spec fn place(self) -> Place {
        Place {
            header: self.object_header_address,
            table: if self.new_style {
                None
            } else {
                Some((self.btree_address, self.heap_address))
            },
        }
    }
}

/// Open the group whose object header is at `address`.
fn open_group<'a>(file_data: &'a [u8], address: u64, name: String) -> (r: Result<
    Group<'a>,
    OxiH5Error,
>)
    ensures
        match (r, place_at(file_data@, address)) {
            (Ok(group), Ok(place)) => group.stands_for(file_data@, name@, place),
            (Err(e), Err(kind)) => e@ == kind,
            _ => false,
        },
{
    let messages: Vec<Message> = parse_messages(file_data, address)?;
    Ok(group_from(file_data, address, name, &messages))
}

/// The group whose object header at `address` has these messages.
fn group_from<'a>(file_data: &'a [u8], address: u64, name: String, messages: &[Message]) -> (r:
    Group<'a>)
    ensures
        r.stands_for(
            file_data@,
            name@,
            Place { header: address, table: symbol_table_in(views(messages@)) },
        ),
{
    let (btree_address, heap_address, new_style): (u64, u64, bool) =
        match find_symbol_table_addresses(messages) {
        Some((btree, heap)) => (btree, heap, false),
        None => (0, 0, true),
    };
    Group {
        name,
        object_header_address: address,
        btree_address,
        heap_address,
        new_style,
        file_data,
        chunk_cache: ChunkIndexCache::new(),
    }
}

/// A group with a B-tree.
fn table_group_from<'a>(
    file_data: &'a [u8],
    header: u64,
    btree_address: u64,
    heap_address: u64,
    name: String,
) -> (r: Group<'a>)
    ensures
        r.stands_for(
            file_data@,
            name@,
            Place { header, table: Some((btree_address, heap_address)) },
        ),
{
    Group {
        name,
        object_header_address: header,
        btree_address,
        heap_address,
        new_style: false,
        file_data,
        chunk_cache: ChunkIndexCache::new(),
    }
}

/// The group that a path leads to.
pub open spec fn group_at_path(file: Seq<u8>, path: Seq<char>) -> Result<Place, ErrorKind> {
    let names = names_along(path);
    match root_place(file) {
        Err(kind) => Err(kind),
        Ok(root) => if names.len() == 0 {
            Ok(root)
        } else {
            match root.table {
                Some(table) => match table_group(file, root.header, table, names) {
                    Err(kind) => Err(kind),
                    Ok((header, table)) => Ok(Place { header, table: Some(table) }),
                },
                None => match linked_group(file, root.header, names) {
                    Err(kind) => Err(kind),
                    Ok(header) => place_at(file, header),
                },
            }
        },
    }
}

/// The name under which a group of that path is opened.
pub open spec fn group_name(path: Seq<char>) -> Seq<char> {
    let names = names_along(path);
    if names.len() == 0 {
        seq!['/']
    } else {
        names.last()
    }
}

/// An open file: its bytes, and the chunk indexes that were read before.
pub struct File<'a> {
    pub data: &'a [u8],
    pub chunk_cache: ChunkIndexCache,
}

impl<'a> File<'a> {
    /// Open a file that is held in memory.
    pub fn open_from_bytes(data: &'a [u8]) -> (r: Result<File<'a>, OxiH5Error>)
        ensures
            r is Ok,
            r->Ok_0.data@ == data@,
            r->Ok_0.chunk_cache@ == Map::<(u64, usize), Seq<RecordModel>>::empty(),
    {
        Ok(File { data, chunk_cache: ChunkIndexCache::new() })
    }

    /// Find where the dataset of that path is: here, or in another file.
    pub fn locate_dataset(&self, path: &str) -> (r: Result<SoftTarget, OxiH5Error>)
        ensures
            outcome(r) == dataset_target(self.data@, path@),
    {
        let names: Vec<&str> = split_names(path);
        let root: Group = self.root()?;
        let n: usize = names.len();
        if n == 0 {
            return Err(OxiH5Error::NotFound(path.to_string()));
        }
        let parents = vstd::slice::slice_subrange(names.as_slice(), 0, n - 1);
        proof {
            assert(views(parents@) =~= views(names@).drop_last());
        }
        if !root.new_style {
            let (_, btree, heap): (u64, u64, u64) = walk_tables(
                self.data,
                root.object_header_address,
                root.btree_address,
                root.heap_address,
                parents,
            )?;
            let address: u64 = find_dataset(self.data, btree, heap, names[n - 1])?;
            Ok(SoftTarget::Local(address))
        } else {
            let header: u64 = walk_links(self.data, root.object_header_address, parents)?;
            resolve_new_style_target(self.data, header, names[n - 1])
        }
    }

    /// Open the root group.
    pub fn root(&self) -> (r: Result<Group<'a>, OxiH5Error>)
        ensures
            match (r, root_place(self.data@)) {
                (Ok(group), Ok(place)) => group.stands_for(self.data@, seq!['/'], place),
                (Err(e), Err(kind)) => e@ == kind,
                _ => false,
            },
    {
        let sb: Superblock = crate::superblock::parse(self.data)?;
        proof {
            reveal_strlit("/");
            assert("/"@ =~= seq!['/']);
        }
        open_group(self.data, sb.root_object_header_address, "/".to_string())
    }

    /// Read the dataset of that path: `a`, `a/b` or `/a/b`.
    ///
    /// A dataset of another file is refused; see [`Self::locate_dataset`]. The sources of
    /// a virtual dataset must be stored in this file; see [`Self::virtual_dataset`].
    pub fn dataset(&mut self, path: &str) -> (r: Result<Dataset, OxiH5Error>)
        ensures
            final(self).data@ == old(self).data@,
            dataset_at_path_read(
                old(self).data@,
                path@,
                filters::apply_pipeline,
                old(self).chunk_cache@,
                final(self).chunk_cache@,
                r,
            ),
    {
        self.dataset_with(path, &filters::apply_pipeline)
    }

    /// Read the dataset of that path; `apply_pipeline` undoes the filters of a
    /// pipeline on the stored bytes of a chunk.
    pub fn dataset_with<
        P: Fn(&[u8], &FilterPipeline, u32, usize) -> Result<Vec<u8>, OxiH5Error>,
    >(&mut self, path: &str, apply_pipeline: &P) -> (r: Result<Dataset, OxiH5Error>)
        requires
            forall|raw: &[u8], pipeline: &FilterPipeline, mask: u32, es: usize|
                apply_pipeline.requires((raw, pipeline, mask, es)),
        ensures
            final(self).data@ == old(self).data@,
            dataset_at_path_read(
                old(self).data@,
                path@,
                *apply_pipeline,
                old(self).chunk_cache@,
                final(self).chunk_cache@,
                r,
            ),
    {
        match self.locate_dataset(path)? {
            SoftTarget::Local(address) => read_dataset_from_object_header(
                self.data,
                address,
                path,
                &mut self.chunk_cache,
                apply_pipeline,
            ),
            SoftTarget::External { file, .. } => Err(
                OxiH5Error::NotImplemented(
                    text(&["external link '", path, "' in file '", &file, "' not followed"]),
                ),
            ),
        }
    }
}

/// What holds of a whole file.
#[derive(Debug, Clone, Copy)]
pub struct FileInfo {
    /// The superblock's version, given as 0 for every file.
    pub superblock_version: u8,
    /// The number of bytes.
    pub file_size: u64,
    /// The number of bytes of an address.
    pub offset_size: u8,
    /// The number of bytes of a length.
    pub length_size: u8,
}

/// What an object reference leads to.
pub enum ObjectKind<'a> {
    Dataset(Dataset),
    Group(Group<'a>),
}

/// Where a member of a group is that is itself a group: here, or in another file.
pub enum GroupTarget<'a> {
    Here(Group<'a>),
    Elsewhere { file: String, path: String },
}

/// The name under which an object found by its address is opened.
pub open spec fn address_name(addr: u64) -> Seq<char> {
    "@0x"@ + hex_text(addr as nat)
}

fn name_of_address(addr: u64) -> (r: String)
    ensures
        r@ == address_name(addr),
{
    let mut name: String = "@0x".to_string();
    let digits: String = hex(addr);
    name.append(digits.as_str());
    name
}

/// Whether an object reference leads to a group: its header has a symbol table or
/// says where links are kept.
pub open spec fn is_group_header(messages: Seq<MessageModel>) -> bool {
    has_type(messages, MSG_SYMBOL_TABLE) || has_type(messages, MSG_LINK_INFO)
}

/// Whether `r` is what the object reference `addr` leads to, with `after` as the cache
/// then.
pub open spec fn object_read<
    P: Fn(&[u8], &FilterPipeline, u32, usize) -> Result<Vec<u8>, OxiH5Error>,
>(
    file: Seq<u8>,
    addr: u64,
    apply_pipeline: P,
    before: Map<(u64, usize), Seq<RecordModel>>,
    after: Map<(u64, usize), Seq<RecordModel>>,
    r: Result<ObjectKind, OxiH5Error>,
) -> bool {
    if addr == u64::MAX {
        r is Err && r->Err_0@ == ErrorKind::NotFound && after == before
    } else {
        match messages_at(file, addr as int) {
            Err(kind) => r is Err && r->Err_0@ == kind && after == before,
            Ok(messages) => if is_group_header(messages) {
                let place = Place { header: addr, table: symbol_table_in(messages) };
                &&& after == before
                &&& r is Ok
                &&& r->Ok_0 is Group
                &&& r->Ok_0->Group_0.stands_for(file, address_name(addr), place)
            } else {
                match r {
                    Ok(ObjectKind::Dataset(ds)) => dataset_read(
                        file,
                        addr,
                        apply_pipeline,
                        before,
                        after,
                        Ok(ds),
                    ),
                    Ok(ObjectKind::Group(_)) => false,
                    Err(e) => dataset_read(file, addr, apply_pipeline, before, after, Err(e)),
                }
            },
        }
    }
}

/// The strings of a dataset of variable-length strings, looked up in the file.
pub open spec fn dataset_texts(file: Seq<u8>, ds: DatasetModel) -> Result<
    Seq<Seq<char>>,
    ErrorKind,
> {
    match ds.dtype {
        DtypeModel::String { fixed_len: None, .. } => if product(ds.shape) <= usize::MAX {
            vlen_strings_in(file_heaps(file), ds.data, product(ds.shape) as nat)
        } else {
            Err(ErrorKind::Format)
        },
        _ => Err(ErrorKind::TypeMismatch),
    }
}

/// View attributes as attributes of a file.
fn views_of<'a>(attributes: Vec<Attribute>, file_data: &'a [u8]) -> (r: Vec<AttrView<'a>>)
    ensures
        views(r@.map_values(|v: AttrView<'a>| v.attr)) == views(attributes@),
        forall|i: int| 0 <= i < r@.len() ==> (#[trigger] r@[i]).file_data@ == file_data@,
{
    let mut found: Vec<AttrView<'a>> = Vec::new();
    for i in 0..attributes.len()
        invariant
            found@.len() == i,
            forall|k: int| 0 <= k < i ==> (#[trigger] found@[k]).attr@ == attributes@[k]@,
            forall|k: int| 0 <= k < i ==> (#[trigger] found@[k]).file_data@ == file_data@,
    {
        found.push(AttrView::new(attributes[i].clone(), file_data));
    }
    proof {
        assert(views(found@.map_values(|v: AttrView<'a>| v.attr)) =~= views(attributes@));
    }
    found
}

impl<'a> File<'a> {
    /// Open the group of that path; `/` and the empty path are the root group.
    pub fn group(&self, path: &str) -> (r: Result<Group<'a>, OxiH5Error>)
        ensures
            match (r, group_at_path(self.data@, path@)) {
                (Ok(group), Ok(place)) => group.stands_for(self.data@, group_name(path@), place),
                (Err(e), Err(kind)) => e@ == kind,
                _ => false,
            },
    {
        let names: Vec<&str> = split_names(path);
        let n: usize = names.len();
        let root: Group<'a> = self.root()?;
        if n == 0 {
            return Ok(root);
        }
        let name: String = names[n - 1].to_string();
        if !root.new_style {
            let (header, btree, heap): (u64, u64, u64) = walk_tables(
                self.data,
                root.object_header_address,
                root.btree_address,
                root.heap_address,
                &names,
            )?;
            Ok(table_group_from(self.data, header, btree, heap, name))
        } else {
            let header: u64 = walk_links(self.data, root.object_header_address, &names)?;
            open_group(self.data, header, name)
        }
    }

    /// The names of the datasets in the root group.
    pub fn dataset_names(&self) -> (r: Result<Vec<String>, OxiH5Error>)
        ensures
            outcomes(r) == root_listing(self.data@, false),
    {
        let root: Group<'a> = self.root()?;
        root.datasets()
    }

    /// The address of the header of the dataset of that path.
    pub fn header_addr_of(&self, path: &str) -> (r: Result<u64, OxiH5Error>)
        ensures
            match (r, dataset_header(self.data@, path@)) {
                (Ok(a), Ok(b)) => a == b,
                (Err(e), Err(kind)) => e@ == kind,
                _ => false,
            },
    {
        let names: Vec<&str> = split_names(path);
        let root: Group = self.root()?;
        let n: usize = names.len();
        if n == 0 {
            return Err(OxiH5Error::NotFound(path.to_string()));
        }
        let parents = vstd::slice::slice_subrange(names.as_slice(), 0, n - 1);
        proof {
            assert(views(parents@) =~= views(names@).drop_last());
        }
        if !root.new_style {
            let (_, btree, heap): (u64, u64, u64) = walk_tables(
                self.data,
                root.object_header_address,
                root.btree_address,
                root.heap_address,
                parents,
            )?;
            find_dataset(self.data, btree, heap, names[n - 1])
        } else {
            let header: u64 = walk_links(self.data, root.object_header_address, parents)?;
            resolve_new_style_header_address(self.data, header, names[n - 1])
        }
    }

    /// Read the part of a dataset that lies in `ranges`, one for each dimension.
    pub fn dataset_slice(&mut self, path: &str, ranges: &[std::ops::Range<usize>]) -> (r: Result<
        Dataset,
        OxiH5Error,
    >)
        ensures
            final(self).data@ == old(self).data@,
            slice_at_path_read(
                old(self).data@,
                path@,
                ranges@,
                filters::apply_pipeline,
                old(self).chunk_cache@,
                final(self).chunk_cache@,
                r,
            ),
    {
        self.dataset_slice_with(path, ranges, &filters::apply_pipeline)
    }

    /// Read the part of a dataset that lies in `ranges`; `apply_pipeline` undoes the
    /// filters of a pipeline on the stored bytes of a chunk.
    pub fn dataset_slice_with<
        P: Fn(&[u8], &FilterPipeline, u32, usize) -> Result<Vec<u8>, OxiH5Error>,
    >(&mut self, path: &str, ranges: &[std::ops::Range<usize>], apply_pipeline: &P) -> (r: Result<
        Dataset,
        OxiH5Error,
    >)
        requires
            forall|raw: &[u8], pipeline: &FilterPipeline, mask: u32, es: usize|
                apply_pipeline.requires((raw, pipeline, mask, es)),
        ensures
            final(self).data@ == old(self).data@,
            slice_at_path_read(
                old(self).data@,
                path@,
                ranges@,
                *apply_pipeline,
                old(self).chunk_cache@,
                final(self).chunk_cache@,
                r,
            ),
    {
        let address: u64 = self.header_addr_of(path)?;
        slice_dataset_at_header(
            self.data,
            address,
            path,
            ranges,
            &mut self.chunk_cache,
            apply_pipeline,
        )
    }

    /// Read a strided selection of a dataset.
    pub fn dataset_hyperslab(&mut self, path: &str, selection: &[DimSelection]) -> (r: Result<
        Dataset,
        OxiH5Error,
    >)
        ensures
            final(self).data@ == old(self).data@,
            selection_at_path_read(
                old(self).data@,
                path@,
                selection@,
                filters::apply_pipeline,
                old(self).chunk_cache@,
                final(self).chunk_cache@,
                r,
            ),
    {
        self.dataset_hyperslab_with(path, selection, &filters::apply_pipeline)
    }

    /// Read a strided selection of a dataset; `apply_pipeline` undoes the filters of a
    /// pipeline on the stored bytes of a chunk.
    pub fn dataset_hyperslab_with<
        P: Fn(&[u8], &FilterPipeline, u32, usize) -> Result<Vec<u8>, OxiH5Error>,
    >(&mut self, path: &str, selection: &[DimSelection], apply_pipeline: &P) -> (r: Result<
        Dataset,
        OxiH5Error,
    >)
        requires
            forall|raw: &[u8], pipeline: &FilterPipeline, mask: u32, es: usize|
                apply_pipeline.requires((raw, pipeline, mask, es)),
        ensures
            final(self).data@ == old(self).data@,
            selection_at_path_read(
                old(self).data@,
                path@,
                selection@,
                *apply_pipeline,
                old(self).chunk_cache@,
                final(self).chunk_cache@,
                r,
            ),
    {
        let address: u64 = self.header_addr_of(path)?;
        let slab = Hyperslab { dims: vstd::slice::slice_to_vec(selection) };
        hyperslab_dataset_at_header(
            self.data,
            address,
            path,
            &slab,
            &mut self.chunk_cache,
            apply_pipeline,
        )
    }

    /// Whether the path leads to a dataset or a group of this file.
    pub fn contains(&self, path: &str) -> (r: bool)
        ensures
            r == is_there(self.data@, path@),
    {
        let found: bool = match self.locate_dataset(path) {
            Ok(SoftTarget::Local(address)) => parse_messages(self.data, address).is_ok(),
            _ => false,
        };
        found || self.group(path).is_ok()
    }

    /// What holds of the whole file.
    pub fn info(&self) -> (r: Result<FileInfo, OxiH5Error>)
        ensures
            match (r, superblock_of(self.data@)) {
                (Ok(info), Ok(sb)) => {
                    &&& info.superblock_version == 0
                    &&& info.file_size == self.data@.len()
                    &&& info.offset_size == sb.size_of_offsets
                    &&& info.length_size == sb.size_of_lengths
                },
                (Err(e), Err(kind)) => e@ == kind,
                _ => false,
            },
    {
        let sb: Superblock = crate::superblock::parse(self.data)?;
        Ok(
            FileInfo {
                superblock_version: 0,
                file_size: self.data.len() as u64,
                offset_size: sb.size_of_offsets,
                length_size: sb.size_of_lengths,
            },
        )
    }

    /// Open what an object reference leads to.
    pub fn object_at(&mut self, addr: u64) -> (r: Result<ObjectKind<'a>, OxiH5Error>)
        ensures
            final(self).data@ == old(self).data@,
            object_read(
                old(self).data@,
                addr,
                filters::apply_pipeline,
                old(self).chunk_cache@,
                final(self).chunk_cache@,
                r,
            ),
    {
        if addr == u64::MAX {
            return Err(OxiH5Error::NotFound("undefined object reference".to_string()));
        }
        let messages: Vec<Message> = parse_messages(self.data, addr)?;
        let name: String = name_of_address(addr);
        if any_of_type(&messages, MSG_SYMBOL_TABLE) || any_of_type(&messages, MSG_LINK_INFO) {
            return Ok(ObjectKind::Group(group_from(self.data, addr, name, &messages)));
        }
        let ds: Dataset = read_dataset_from_object_header(
            self.data,
            addr,
            name.as_str(),
            &mut self.chunk_cache,
            &filters::apply_pipeline,
        )?;
        Ok(ObjectKind::Dataset(ds))
    }

    /// Read the dataset that an object reference leads to; a group is an error.
    pub fn dataset_at(&mut self, addr: u64) -> (r: Result<Dataset, OxiH5Error>)
        ensures
            final(self).data@ == old(self).data@,
            exists|found: Result<ObjectKind<'a>, OxiH5Error>|
                {
                    &&& #[trigger] object_read(
                        old(self).data@,
                        addr,
                        filters::apply_pipeline,
                        old(self).chunk_cache@,
                        final(self).chunk_cache@,
                        found,
                    )
                    &&& match found {
                        Ok(ObjectKind::Dataset(ds)) => r == Ok::<Dataset, OxiH5Error>(ds),
                        Ok(ObjectKind::Group(_)) => r is Err && r->Err_0@
                            == ErrorKind::TypeMismatch,
                        Err(e) => r == Err::<Dataset, OxiH5Error>(e),
                    }
                },
    {
        let found: Result<ObjectKind<'a>, OxiH5Error> = self.object_at(addr);
        match found {
            Ok(ObjectKind::Dataset(ds)) => Ok(ds),
            Ok(ObjectKind::Group(_)) => Err(OxiH5Error::TypeMismatch),
            Err(e) => Err(e),
        }
    }

    /// The attributes of the object whose header is at `addr`.
    pub fn attrs_of(&self, addr: u64) -> (r: Result<Vec<Attribute>, OxiH5Error>)
        ensures
            outcomes(r) == (if addr == u64::MAX {
                Err(ErrorKind::NotFound)
            } else {
                attributes_at(self.data@, addr)
            }),
    {
        if addr == u64::MAX {
            return Err(OxiH5Error::NotFound("undefined object reference".to_string()));
        }
        read_attributes_from_header(self.data, addr)
    }

    /// The attributes of the dataset of that path, each with the file's bytes.
    pub fn attr_views(&self, path: &str) -> (r: Result<Vec<AttrView<'a>>, OxiH5Error>)
        ensures
            match dataset_header(self.data@, path@) {
                Err(kind) => r is Err && r->Err_0@ == kind,
                Ok(addr) => viewed(r, self.data@, addr),
            },
    {
        let addr: u64 = self.header_addr_of(path)?;
        let attributes: Vec<Attribute> = read_attributes_from_header(self.data, addr)?;
        Ok(views_of(attributes, self.data))
    }

    /// Read how the dataset of that path is made of others, if it is a virtual one.
    ///
    /// Once its sources are read, [`VirtualDataset::assemble`] puts it together.
    pub fn virtual_dataset(&self, path: &str) -> (r: Result<Option<VirtualDataset>, OxiH5Error>)
        ensures
            match (r, virtual_at_path(self.data@, path@)) {
                (Ok(None), Ok(None)) => true,
                (Ok(Some(a)), Ok(Some(b))) => a@ == b,
                (Err(e), Err(kind)) => e@ == kind,
                _ => false,
            },
    {
        match self.locate_dataset(path)? {
            SoftTarget::Local(address) => parse_virtual_dataset(self.data, address, path),
            SoftTarget::External { file, .. } => Err(
                OxiH5Error::NotImplemented(
                    text(&["external link '", path, "' in file '", &file, "' not followed"]),
                ),
            ),
        }
    }

    /// Read the strings of a dataset of variable-length strings. Those of fixed length
    /// are in [`Dataset::as_string`].
    pub fn dataset_strings(&mut self, path: &str) -> (r: Result<Vec<String>, OxiH5Error>)
        ensures
            final(self).data@ == old(self).data@,
            exists|read: Result<Dataset, OxiH5Error>|
                {
                    &&& #[trigger] dataset_at_path_read(
                        old(self).data@,
                        path@,
                        filters::apply_pipeline,
                        old(self).chunk_cache@,
                        final(self).chunk_cache@,
                        read,
                    )
                    &&& match read {
                        Err(e) => r == Err::<Vec<String>, OxiH5Error>(e),
                        Ok(ds) => outcomes(r) == dataset_texts(old(self).data@, ds@),
                    }
                },
    {
        let read: Result<Dataset, OxiH5Error> = self.dataset(path);
        match read {
            Err(e) => Err(e),
            Ok(ds) => match &ds.dtype {
                Dtype::String { fixed_len: None, .. } => match exact_total(&ds.shape) {
                    None => Err(
                        OxiH5Error::Format(text(&["dataset '", path, "' is too large"])),
                    ),
                    Some(n) => decode_vlen_strings(self.data, &ds.data, n),
                },
                _ => Err(OxiH5Error::TypeMismatch),
            },
        }
    }
}

/// Whether `r` holds the attributes of the object at `addr`, each with the file.
pub open spec fn viewed<'a>(r: Result<Vec<AttrView<'a>>, OxiH5Error>, file: Seq<u8>, addr: u64) -> bool {
    match (r, attributes_at(file, addr)) {
        (Ok(found), Ok(attributes)) => {
            &&& views(found@.map_values(|v: AttrView<'a>| v.attr)) == attributes
            &&& forall|i: int| 0 <= i < found@.len() ==> (#[trigger] found@[i]).file_data@ == file
        },
        (Err(e), Err(kind)) => e@ == kind,
        _ => false,
    }
}

/// Whether `r` is what reading ranges of the dataset of that path gives, with `after`
/// as the cache then.
pub open spec fn slice_at_path_read<
    P: Fn(&[u8], &FilterPipeline, u32, usize) -> Result<Vec<u8>, OxiH5Error>,
>(
    file: Seq<u8>,
    path: Seq<char>,
    ranges: Seq<std::ops::Range<usize>>,
    apply_pipeline: P,
    before: Map<(u64, usize), Seq<RecordModel>>,
    after: Map<(u64, usize), Seq<RecordModel>>,
    r: Result<Dataset, OxiH5Error>,
) -> bool {
    match dataset_header(file, path) {
        Err(kind) => r is Err && r->Err_0@ == kind && after == before,
        Ok(addr) => dataset_slice_read(file, addr, ranges, apply_pipeline, before, after, r),
    }
}

/// Whether `r` is what reading a selection of the dataset of that path gives, with
/// `after` as the cache then.
pub open spec fn selection_at_path_read<
    P: Fn(&[u8], &FilterPipeline, u32, usize) -> Result<Vec<u8>, OxiH5Error>,
>(
    file: Seq<u8>,
    path: Seq<char>,
    selection: Seq<DimSelection>,
    apply_pipeline: P,
    before: Map<(u64, usize), Seq<RecordModel>>,
    after: Map<(u64, usize), Seq<RecordModel>>,
    r: Result<Dataset, OxiH5Error>,
) -> bool {
    match dataset_header(file, path) {
        Err(kind) => r is Err && r->Err_0@ == kind && after == before,
        Ok(addr) => dataset_selection_read(
            file,
            addr,
            selection,
            apply_pipeline,
            before,
            after,
            r,
        ),
    }
}

/// Whether a path leads to a dataset or a group of the file: to an object header, or to
/// a group. A dataset counts whether or not its elements can be read.
pub open spec fn is_there(file: Seq<u8>, path: Seq<char>) -> bool {
    ||| match dataset_target(file, path) {
        Ok(TargetModel::Local(addr)) => messages_at(file, addr as int) is Ok,
        _ => false,
    }
    ||| group_at_path(file, path) is Ok
}

/// The virtual dataset of that path, if the dataset there is one. A dataset of another
/// file is not followed.
pub open spec fn virtual_at_path(file: Seq<u8>, path: Seq<char>) -> Result<
    Option<VirtualModel>,
    ErrorKind,
> {
    match dataset_target(file, path) {
        Err(kind) => Err(kind),
        Ok(TargetModel::Local(addr)) => virtual_at(file, addr),
        Ok(TargetModel::External { .. }) => Err(ErrorKind::NotImplemented),
    }
}

/// The names of the sub-groups, or of the other members, of the root group.
pub open spec fn root_listing(file: Seq<u8>, want_groups: bool) -> Result<
    Seq<Seq<char>>,
    ErrorKind,
> {
    match root_place(file) {
        Err(kind) => Err(kind),
        Ok(root) => listing(file, root, want_groups),
    }
}

/// Whether the object at `addr` is a group.
pub open spec fn leads_to_group(file: Seq<u8>, addr: u64) -> bool {
    keeps_links(file, addr) || header_has(file, addr, MSG_SYMBOL_TABLE)
}

fn is_group_at(file_data: &[u8], addr: u64) -> (r: bool)
    ensures
        r == leads_to_group(file_data@, addr),
{
    is_new_style_group(file_data, addr) || header_has_type(file_data, addr, MSG_SYMBOL_TABLE)
}

/// Whether a link leads to a group, if it can be followed within the file.
pub open spec fn link_kind(file: Seq<u8>, root: u64, link: LinkModel) -> Option<bool> {
    match link {
        LinkModel::Hard { address } => Some(leads_to_group(file, address)),
        LinkModel::Soft { path } => match soft_header(file, root, path, Seq::empty()) {
            Ok(address) => Some(leads_to_group(file, address)),
            Err(_) => None,
        },
        LinkModel::External { .. } => None,
    }
}

/// The names of the links that lead to groups, or to other objects; links that cannot
/// be followed within the file are left out.
pub open spec fn listed_links(
    file: Seq<u8>,
    root: u64,
    links: Seq<(Seq<char>, LinkModel)>,
    want_groups: bool,
) -> Seq<Seq<char>>
    decreases links.len(),
{
    if links.len() == 0 {
        Seq::empty()
    } else {
        let front = listed_links(file, root, links.drop_last(), want_groups);
        if link_kind(file, root, links.last().1) == Some(want_groups) {
            front.push(links.last().0)
        } else {
            front
        }
    }
}

/// The names of the sub-groups, or of the other members, of a group.
pub open spec fn listing(file: Seq<u8>, place: Place, want_groups: bool) -> Result<
    Seq<Seq<char>>,
    ErrorKind,
> {
    match place.table {
        Some((btree, heap)) => listed(file, btree, heap, want_groups),
        None => match superblock_of(file) {
            Err(kind) => Err(kind),
            Ok(sb) => match links_at(file, place.header, sb.size_of_offsets) {
                Err(kind) => Err(kind),
                Ok(links) => Ok(
                    listed_links(file, sb.root_object_header_address, links, want_groups),
                ),
            },
        },
    }
}

fn link_leads_to(file_data: &[u8], root: u64, link: &Link) -> (r: Option<bool>)
    ensures
        r == link_kind(file_data@, root, link@),
{
    match link {
        Link::Hard { address } => Some(is_group_at(file_data, *address)),
        Link::Soft { path } => {
            let mut visited: Vec<String> = Vec::new();
            proof {
                assert(views(visited@) =~= Seq::empty());
            }
            match resolve_soft_link_to_header(file_data, root, path.as_str(), &mut visited) {
                Ok(address) => Some(is_group_at(file_data, address)),
                Err(_) => None,
            }
        },
        Link::External { .. } => None,
    }
}

/// Where the group of that name in a group is: here, or in another file.
pub open spec fn group_child(file: Seq<u8>, place: Place, name: Seq<char>) -> Result<
    (TargetModel, Option<Place>),
    ErrorKind,
> {
    match place.table {
        Some((btree, heap)) => match member_at(file, btree, heap, name) {
            Err(kind) => Err(kind),
            Ok(addr) => match place_at(file, addr) {
                Err(kind) => Err(kind),
                Ok(found) => if found.table is Some {
                    Ok((TargetModel::Local(addr), Some(found)))
                } else {
                    Err(ErrorKind::NotFound)
                },
            },
        },
        None => match superblock_of(file) {
            Err(kind) => Err(kind),
            Ok(sb) => match links_at(file, place.header, sb.size_of_offsets) {
                Err(kind) => Err(kind),
                Ok(links) => match link_named(links, name) {
                    None => Err(ErrorKind::NotFound),
                    Some(LinkModel::External { file, path }) => Ok(
                        (TargetModel::External { file, path }, None),
                    ),
                    Some(link) => match (match link {
                        LinkModel::Hard { address } => Ok(address),
                        LinkModel::Soft { path } => soft_header(
                            file,
                            sb.root_object_header_address,
                            path,
                            Seq::empty(),
                        ),
                        LinkModel::External { .. } => Err(ErrorKind::NotImplemented),
                    }) {
                        Err(kind) => Err(kind),
                        Ok(addr) => match place_at(file, addr) {
                            Err(kind) => Err(kind),
                            Ok(found) => Ok((TargetModel::Local(addr), Some(found))),
                        },
                    },
                },
            },
        },
    }
}

impl<'a> Group<'a> {
    /// The names of the datasets in this group.
    pub fn datasets(&self) -> (r: Result<Vec<String>, OxiH5Error>)
        ensures
            outcomes(r) == listing(self.file_data@, self.place(), false),
    {
        self.list_entries_by_type(false)
    }

    /// The names of the sub-groups of this group.
    pub fn groups(&self) -> (r: Result<Vec<String>, OxiH5Error>)
        ensures
            outcomes(r) == listing(self.file_data@, self.place(), true),
    {
        self.list_entries_by_type(true)
    }

    fn list_entries_by_type(&self, want_groups: bool) -> (r: Result<Vec<String>, OxiH5Error>)
        ensures
            outcomes(r) == listing(self.file_data@, self.place(), want_groups),
    {
        if self.new_style {
            return self.list_new_style_entries(want_groups);
        }
        list_members(self.file_data, self.btree_address, self.heap_address, want_groups)
    }

    fn list_new_style_entries(&self, want_groups: bool) -> (r: Result<Vec<String>, OxiH5Error>)
        requires
            self.new_style,
        ensures
            outcomes(r) == listing(self.file_data@, self.place(), want_groups),
    {
        let sb: Superblock = crate::superblock::parse(self.file_data)?;
        let root: u64 = sb.root_object_header_address;
        let links: Vec<ParsedLink> = list_new_style_links(
            self.file_data,
            self.object_header_address,
            sb.size_of_offsets,
        )?;
        let ghost all = views(links@);
        let mut names: Vec<String> = Vec::new();
        let n: usize = links.len();
        proof {
            assert(all.take(0) =~= Seq::<(Seq<char>, LinkModel)>::empty());
            assert(views(names@) =~= Seq::empty());
        }
        for i in 0..n
            invariant
                n == links@.len(),
                all == views(links@),
                views(names@) == listed_links(
                    self.file_data@,
                    root,
                    all.take(i as int),
                    want_groups,
                ),
        {
            let ghost before = views(names@);
            proof {
                assert(all.take(i + 1).drop_last() =~= all.take(i as int));
                assert(all.take(i + 1).last() == links@[i as int]@);
            }
            if link_leads_to(self.file_data, root, &links[i].link) == Some(want_groups) {
                names.push(links[i].name.clone());
                proof {
                    assert(views(names@) =~= before.push(links@[i as int].name@));
                }
            }
        }
        proof {
            assert(all.take(n as int) =~= all);
        }
        Ok(names)
    }

    /// Find where the dataset of that name in this group is: here, or in another file.
    pub fn locate_dataset(&self, name: &str) -> (r: Result<SoftTarget, OxiH5Error>)
        ensures
            outcome(r) == member_target(self.file_data@, self.place(), name@),
    {
        if self.new_style {
            return resolve_new_style_target(self.file_data, self.object_header_address, name);
        }
        let address: u64 = find_dataset(
            self.file_data,
            self.btree_address,
            self.heap_address,
            name,
        )?;
        Ok(SoftTarget::Local(address))
    }

    /// Read the dataset of that name in this group.
    ///
    /// A dataset of another file is refused.
    pub fn dataset(&mut self, name: &str) -> (r: Result<Dataset, OxiH5Error>)
        ensures
            final(self).file_data@ == old(self).file_data@,
            final(self).place() == old(self).place(),
            member_read(
                old(self).file_data@,
                old(self).place(),
                name@,
                filters::apply_pipeline,
                old(self).chunk_cache@,
                final(self).chunk_cache@,
                r,
            ),
    {
        self.dataset_with(name, &filters::apply_pipeline)
    }

    /// Read the dataset of that name in this group; `apply_pipeline` undoes the filters
    /// of a pipeline on the stored bytes of a chunk.
    pub fn dataset_with<
        P: Fn(&[u8], &FilterPipeline, u32, usize) -> Result<Vec<u8>, OxiH5Error>,
    >(&mut self, name: &str, apply_pipeline: &P) -> (r: Result<Dataset, OxiH5Error>)
        requires
            forall|raw: &[u8], pipeline: &FilterPipeline, mask: u32, es: usize|
                apply_pipeline.requires((raw, pipeline, mask, es)),
        ensures
            final(self).file_data@ == old(self).file_data@,
            final(self).place() == old(self).place(),
            member_read(
                old(self).file_data@,
                old(self).place(),
                name@,
                *apply_pipeline,
                old(self).chunk_cache@,
                final(self).chunk_cache@,
                r,
            ),
    {
        if !self.new_style {
            return read_dataset_from_group(
                self.file_data,
                self.btree_address,
                self.heap_address,
                name,
                &mut self.chunk_cache,
                apply_pipeline,
            );
        }
        match self.locate_dataset(name)? {
            SoftTarget::Local(address) => read_dataset_from_object_header(
                self.file_data,
                address,
                name,
                &mut self.chunk_cache,
                apply_pipeline,
            ),
            SoftTarget::External { file, .. } => Err(
                OxiH5Error::NotImplemented(
                    text(&["external link '", name, "' in file '", &file, "' not followed"]),
                ),
            ),
        }
    }

    /// Open the sub-group of that name, or tell in which other file it is.
    pub fn group(&self, name: &str) -> (r: Result<GroupTarget<'a>, OxiH5Error>)
        ensures
            match (r, group_child(self.file_data@, self.place(), name@)) {
                (Ok(GroupTarget::Here(group)), Ok((_, Some(place)))) => group.stands_for(
                    self.file_data@,
                    name@,
                    place,
                ),
                (
                    Ok(GroupTarget::Elsewhere { file, path }),
                    Ok((target, None)),
                ) => target == (TargetModel::External { file: file@, path: path@ }),
                (Err(e), Err(kind)) => e@ == kind,
                _ => false,
            },
    {
        if self.new_style {
            let sb: Superblock = crate::superblock::parse(self.file_data)?;
            let links: Vec<ParsedLink> = list_new_style_links(
                self.file_data,
                self.object_header_address,
                sb.size_of_offsets,
            )?;
            let address: u64 = match find_link(&links, name) {
                None => {
                    return Err(OxiH5Error::NotFound(name.to_string()));
                },
                Some(Link::Hard { address }) => *address,
                Some(Link::Soft { path }) => {
                    let mut visited: Vec<String> = Vec::new();
                    proof {
                        assert(views(visited@) =~= Seq::empty());
                    }
                    resolve_soft_link_to_header(
                        self.file_data,
                        sb.root_object_header_address,
                        path.as_str(),
                        &mut visited,
                    )?
                },
                Some(Link::External { file, path }) => {
                    return Ok(
                        GroupTarget::Elsewhere { file: file.clone(), path: path.clone() },
                    );
                },
            };
            let found: Group<'a> = open_group(self.file_data, address, name.to_string())?;
            return Ok(GroupTarget::Here(found));
        }
        let address: u64 = find_dataset(
            self.file_data,
            self.btree_address,
            self.heap_address,
            name,
        )?;
        let found: Group<'a> = open_group(self.file_data, address, name.to_string())?;
        if found.new_style {
            return Err(OxiH5Error::NotFound(text(&["'", name, "' is not a group"])));
        }
        Ok(GroupTarget::Here(found))
    }

    /// The address of the header of the dataset of that name.
    fn member_header_addr(&self, name: &str) -> (r: Result<u64, OxiH5Error>)
        ensures
            match (r, member_header(self.file_data@, self.place(), name@)) {
                (Ok(a), Ok(b)) => a == b,
                (Err(e), Err(kind)) => e@ == kind,
                _ => false,
            },
    {
        if self.new_style {
            resolve_new_style_header_address(self.file_data, self.object_header_address, name)
        } else {
            find_dataset(self.file_data, self.btree_address, self.heap_address, name)
        }
    }

    /// Read the part of a dataset of this group that lies in `ranges`.
    pub fn dataset_slice(&mut self, name: &str, ranges: &[std::ops::Range<usize>]) -> (r: Result<
        Dataset,
        OxiH5Error,
    >)
        ensures
            final(self).file_data@ == old(self).file_data@,
            final(self).place() == old(self).place(),
            match member_header(old(self).file_data@, old(self).place(), name@) {
                Err(kind) => r is Err && r->Err_0@ == kind && final(self).chunk_cache@ == old(
                    self,
                ).chunk_cache@,
                Ok(addr) => dataset_slice_read(
                    old(self).file_data@,
                    addr,
                    ranges@,
                    filters::apply_pipeline,
                    old(self).chunk_cache@,
                    final(self).chunk_cache@,
                    r,
                ),
            },
    {
        let address: u64 = self.member_header_addr(name)?;
        slice_dataset_at_header(
            self.file_data,
            address,
            name,
            ranges,
            &mut self.chunk_cache,
            &filters::apply_pipeline,
        )
    }

    /// Read a strided selection of a dataset of this group.
    pub fn dataset_hyperslab(&mut self, name: &str, selection: &[DimSelection]) -> (r: Result<
        Dataset,
        OxiH5Error,
    >)
        ensures
            final(self).file_data@ == old(self).file_data@,
            final(self).place() == old(self).place(),
            match member_header(old(self).file_data@, old(self).place(), name@) {
                Err(kind) => r is Err && r->Err_0@ == kind && final(self).chunk_cache@ == old(
                    self,
                ).chunk_cache@,
                Ok(addr) => dataset_selection_read(
                    old(self).file_data@,
                    addr,
                    selection@,
                    filters::apply_pipeline,
                    old(self).chunk_cache@,
                    final(self).chunk_cache@,
                    r,
                ),
            },
    {
        let address: u64 = self.member_header_addr(name)?;
        let slab = Hyperslab { dims: vstd::slice::slice_to_vec(selection) };
        hyperslab_dataset_at_header(
            self.file_data,
            address,
            name,
            &slab,
            &mut self.chunk_cache,
            &filters::apply_pipeline,
        )
    }

    /// The attributes of this group.
    pub fn attrs(&self) -> (r: Result<Vec<Attribute>, OxiH5Error>)
        ensures
            outcomes(r) == attributes_at(self.file_data@, self.object_header_address),
    {
        read_attributes_from_header(self.file_data, self.object_header_address)
    }

    /// The attributes of this group, each with the file's bytes.
    pub fn attr_views(&self) -> (r: Result<Vec<AttrView<'a>>, OxiH5Error>)
        ensures
            viewed(r, self.file_data@, self.object_header_address),
    {
        let attributes: Vec<Attribute> = read_attributes_from_header(
            self.file_data,
            self.object_header_address,
        )?;
        Ok(views_of(attributes, self.file_data))
    }
}

/// Whether `r` is what reading the dataset of that name in a group gives, with `after`
/// as the cache then.
pub open spec fn member_read<
    P: Fn(&[u8], &FilterPipeline, u32, usize) -> Result<Vec<u8>, OxiH5Error>,
>(
    file: Seq<u8>,
    place: Place,
    name: Seq<char>,
    apply_pipeline: P,
    before: Map<(u64, usize), Seq<RecordModel>>,
    after: Map<(u64, usize), Seq<RecordModel>>,
    r: Result<Dataset, OxiH5Error>,
) -> bool {
    match member_target(file, place, name) {
        Err(kind) => r is Err && r->Err_0@ == kind && after == before,
        Ok(TargetModel::Local(addr)) => dataset_read(
            file,
            addr,
            apply_pipeline,
            before,
            after,
            r,
        ),
        Ok(TargetModel::External { .. }) => {
            r is Err && r->Err_0@ == ErrorKind::NotImplemented && after == before
        },
    }
}

/// Whether `r` is what reading the dataset of that path gives, with `after` as the
/// cache then.
pub open spec fn dataset_at_path_read<
    P: Fn(&[u8], &FilterPipeline, u32, usize) -> Result<Vec<u8>, OxiH5Error>,
>(
    file: Seq<u8>,
    path: Seq<char>,
    apply_pipeline: P,
    before: Map<(u64, usize), Seq<RecordModel>>,
    after: Map<(u64, usize), Seq<RecordModel>>,
    r: Result<Dataset, OxiH5Error>,
) -> bool {
    match dataset_target(file, path) {
        Err(kind) => r is Err && r->Err_0@ == kind && after == before,
        Ok(TargetModel::Local(addr)) => dataset_read(
            file,
            addr,
            apply_pipeline,
            before,
            after,
            r,
        ),
        Ok(TargetModel::External { .. }) => {
            r is Err && r->Err_0@ == ErrorKind::NotImplemented && after == before
        },
    }
}

/// The path of an object of that name in the group of that path.
pub open spec fn joined_path(path: Seq<char>, name: Seq<char>) -> Seq<char> {
    if path == seq!['/'] {
        path + name
    } else {
        path + seq!['/'] + name
    }
}

fn join_path(path: &str, name: &str) -> (r: String)
    ensures
        r@ == joined_path(path@, name@),
{
    let mut full: String = path.to_string();
    proof {
        reveal_strlit("/");
        assert("/"@ =~= seq!['/']);
    }
    if !same_text(path, "/") {
        full.append("/");
    }
    full.append(name);
    full
}

/// The paths of the datasets in a group.
pub open spec fn datasets_below(file: Seq<u8>, place: Place, path: Seq<char>) -> Seq<
    (Seq<char>, bool),
> {
    match listing(file, place, false) {
        Ok(names) => Seq::new(names.len(), |i: int| (joined_path(path, names[i]), false)),
        Err(_) => Seq::empty(),
    }
}

/// Everything in a group, at most `left` groups deep: the paths of its datasets, then
/// each sub-group with everything in it. What cannot be read is left out.
pub open spec fn everything_below(file: Seq<u8>, place: Place, path: Seq<char>, left: nat) -> Seq<
    (Seq<char>, bool),
>
    decreases left, 0nat,
{
    datasets_below(file, place, path) + match listing(file, place, true) {
        Ok(names) => if left == 0 {
            Seq::empty()
        } else {
            groups_below(file, path, names, (left - 1) as nat)
        },
        Err(_) => Seq::empty(),
    }
}

/// The groups of these names, each with everything in it.
pub open spec fn groups_below(
    file: Seq<u8>,
    path: Seq<char>,
    names: Seq<Seq<char>>,
    left: nat,
) -> Seq<(Seq<char>, bool)>
    decreases left, names.len() + 1,
{
    if names.len() == 0 {
        Seq::empty()
    } else {
        let full = joined_path(path, names.last());
        let front = groups_below(file, path, names.drop_last(), left).push((full, true));
        match group_at_path(file, full) {
            Ok(place) => front + everything_below(file, place, full, left),
            Err(_) => front,
        }
    }
}

/// A list of paths, each with whether it is that of a group.
pub open spec fn visits(list: Seq<(String, bool)>) -> Seq<(Seq<char>, bool)> {
    Seq::new(list.len(), |i: int| (list[i].0@, list[i].1))
}

impl<'a> File<'a> {
    /// List the whole file: the path of every dataset and group, and whether it is a
    /// group. A group comes before what is in it; what cannot be read is left out.
    ///
    /// The list goes as many groups deep as the file has bytes.
    pub fn walk(&self) -> (r: Result<Vec<(String, bool)>, OxiH5Error>)
        ensures
            match (r, root_place(self.data@)) {
                (Ok(list), Ok(root)) => visits(list@) == everything_below(
                    self.data@,
                    root,
                    seq!['/'],
                    self.data@.len(),
                ),
                (Err(e), Err(kind)) => e@ == kind,
                _ => false,
            },
    {
        let root: Group<'a> = self.root()?;
        let mut list: Vec<(String, bool)> = Vec::new();
        proof {
            reveal_strlit("/");
            assert("/"@ =~= seq!['/']);
            assert(visits(list@) =~= Seq::empty());
        }
        self.walk_group(&root, "/", self.data.len(), &mut list);
        proof {
            let all = everything_below(self.data@, root.place(), seq!['/'], self.data@.len());
            assert(Seq::empty() + all =~= all);
            assert(root.place() == root_place(self.data@)->Ok_0);
        }
        Ok(list)
    }

    /// Append everything in a group of this file.
    fn walk_group(&self, group: &Group<'a>, path: &str, left: usize, list: &mut Vec<
        (String, bool),
    >)
        requires
            group.file_data@ == self.data@,
        ensures
            visits(final(list)@) == visits(old(list)@) + everything_below(
                self.data@,
                group.place(),
                path@,
                left as nat,
            ),
        decreases left,
    {
        let ghost file = self.data@;
        let ghost start = visits(list@);
        let ghost first = datasets_below(file, group.place(), path@);
        match group.datasets() {
            Ok(names) => {
                let n: usize = names.len();
                proof {
                    assert(start + first.take(0) =~= start);
                }
                for i in 0..n
                    invariant
                        n == names@.len(),
                        file == self.data@,
                        first == datasets_below(file, group.place(), path@),
                        listing(file, group.place(), false) == Ok::<Seq<Seq<char>>, ErrorKind>(
                            views(names@),
                        ),
                        visits(list@) == start + first.take(i as int),
                {
                    let full: String = join_path(path, names[i].as_str());
                    let ghost before = list@;
                    list.push((full, false));
                    proof {
                        assert(first[i as int] == (full@, false));
                        assert(first.take(i + 1) =~= first.take(i as int).push((full@, false)));
                        assert(visits(list@) =~= visits(before).push((full@, false)));
                        assert(visits(list@) =~= start + first.take(i + 1));
                    }
                }
                proof {
                    assert(first.take(n as int) =~= first);
                }
            },
            Err(_) => {
                proof {
                    assert(start + first =~= start);
                }
            },
        }
        let ghost middle = visits(list@);
        proof {
            assert(middle == start + first);
        }
        match group.groups() {
            Ok(names) => {
                let n: usize = names.len();
                let ghost all = views(names@);
                if left == 0 {
                    proof {
                        assert(visits(list@) =~= start + everything_below(
                            file,
                            group.place(),
                            path@,
                            left as nat,
                        ));
                    }
                    return;
                }
                proof {
                    assert(all.take(0) =~= Seq::<Seq<char>>::empty());
                    assert(middle + Seq::<(Seq<char>, bool)>::empty() =~= middle);
                }
                for i in 0..n
                    invariant
                        n == names@.len(),
                        all == views(names@),
                        file == self.data@,
                        left > 0,
                        visits(list@) == middle + groups_below(
                            file,
                            path@,
                            all.take(i as int),
                            (left - 1) as nat,
                        ),
                {
                    let full: String = join_path(path, names[i].as_str());
                    let ghost before = visits(list@);
                    let ghost front = groups_below(
                        file,
                        path@,
                        all.take(i as int),
                        (left - 1) as nat,
                    );
                    proof {
                        assert(all.take(i + 1).drop_last() =~= all.take(i as int));
                        assert(all.take(i + 1).last() == names@[i as int]@);
                    }
                    list.push((full.clone(), true));
                    proof {
                        assert(visits(list@) =~= before.push((full@, true)));
                        assert(visits(list@) =~= middle + front.push((full@, true)));
                    }
                    let ghost now = visits(list@);
                    match self.group(full.as_str()) {
                        Ok(inner) => {
                            self.walk_group(&inner, full.as_str(), left - 1, list);
                            proof {
                                let more = everything_below(
                                    file,
                                    inner.place(),
                                    full@,
                                    (left - 1) as nat,
                                );
                                assert(now + more =~= middle + (front.push((full@, true))
                                    + more));
                                assert(inner.place() == group_at_path(file, full@)->Ok_0);
                            }
                        },
                        Err(_) => {},
                    }
                }
                proof {
                    assert(all.take(n as int) =~= all);
                    assert(visits(list@) =~= start + everything_below(
                        file,
                        group.place(),
                        path@,
                        left as nat,
                    ));
                }
            },
            Err(_) => {
                proof {
                    assert(visits(list@) =~= start + everything_below(
                        file,
                        group.place(),
                        path@,
                        left as nat,
                    ));
                }
            },
        }
    }
}

} // verus!
