//! Following links: hard, soft and external ones, in groups that keep their links as
//! messages.

use vstd::prelude::*;
use vstd::set_lib::{lemma_int_range, lemma_len_subset, lemma_map_size_bound, set_int_range};
use crate::btree_v2::{contents, parse_tree, read_records, records_of, tree_at, Tree};
use crate::bytes::{le_at, lemma_le_at_same, tag_at};
use crate::dtype::views;
use crate::error::{
    lemma_try_each_fails, outcome, outcomes, text, text_around, try_each, ErrorKind, OxiH5Error,
};
use crate::fractal_heap::{
    find_object, heap_at, lemma_place_bounds, object_place, parse_heap, Heap,
};
use crate::group::{MSG_LINK, MSG_LINK_INFO};
use crate::header::{
    behind, block_at, body_len, head_len, message_at, messages_at, messages_from, parse_messages,
    size_pos, size_width, stored_len, Message, MessageModel, Style, CONTINUATION,
};
use crate::link_msg::{
    link_in, name_len_pos, name_len_width, parse_link, LinkModel, ParsedLink,
};
use crate::object::Link;
use crate::paths::{names_along, split_names};
use crate::superblock::{offset_at, read_offset_at, superblock_of, Superblock};
use crate::utf8::{holds_text, same_text};

verus! {

/// The address that says that nothing is there, for addresses of `width` bytes.
pub open spec fn undefined(width: u8) -> u64 {
    match width {
        1 => 0xff,
        2 => 0xffff,
        4 => 0xffff_ffff,
        _ => u64::MAX,
    }
}

/// Where a link info message says that links are kept outside the header: the address of
/// a fractal heap, and that of a B-tree of their names.
pub open spec fn kept_elsewhere(data: Seq<u8>, width: u8) -> Result<
    Option<(u64, u64)>,
    ErrorKind,
> {
    if data.len() < 2 {
        Err(ErrorKind::Format)
    } else {
        let at = if data[1] % 2 == 1 {
            10int
        } else {
            2
        };
        match offset_at(data, at, width as int) {
            Err(kind) => Err(kind),
            Ok(heap) => if heap == undefined(width) {
                Ok(None)
            } else {
                match offset_at(data, at + width, width as int) {
                    Err(kind) => Err(kind),
                    Ok(index) => Ok(Some((heap, index))),
                }
            },
        }
    }
}

/// The type of records on names of links.
pub const RECORD_LINK_NAME: u8 = 5;

/// The link that a record on a name stands for: a hash of the name (4 bytes) and the ID of
/// the heap object that holds the link.
pub open spec fn recorded_link(file: Seq<u8>, heap: Heap, record: Seq<u8>, width: u8) -> Result<
    (Seq<char>, LinkModel),
    ErrorKind,
> {
    if record.len() < 4 {
        Err(ErrorKind::Format)
    } else {
        match object_place(file, heap, record.skip(4)) {
            Err(kind) => Err(kind),
            Ok((pos, len)) => link_in(file.subrange(pos, pos + len), width as int),
        }
    }
}

/// The links that are kept in a fractal heap, as the B-tree of their names lists them.
pub open spec fn heap_links(file: Seq<u8>, heap: u64, index: u64, width: u8) -> Result<
    Seq<(Seq<char>, LinkModel)>,
    ErrorKind,
> {
    if width != 8 {
        Err(ErrorKind::NotImplemented)
    } else {
        match heap_at(file, heap as int) {
            Err(kind) => Err(kind),
            Ok(heap) => match tree_at(file, index as int) {
                Err(kind) => Err(kind),
                Ok(tree) => if tree.record_type != RECORD_LINK_NAME {
                    Err(ErrorKind::Format)
                } else {
                    match records_of(file, tree) {
                        Err(kind) => Err(kind),
                        Ok(records) => try_each(
                            records.len(),
                            |i: int| recorded_link(file, heap, records[i], width),
                        ),
                    }
                },
            },
        }
    }
}

/// The links in the first `k` messages, in a file whose addresses have `width` bytes.
pub open spec fn links_in(file: Seq<u8>, messages: Seq<MessageModel>, width: u8, k: nat) -> Result<
    Seq<(Seq<char>, LinkModel)>,
    ErrorKind,
>
    decreases k,
{
    if k == 0 {
        Ok(Seq::empty())
    } else {
        match links_in(file, messages, width, (k - 1) as nat) {
            Err(kind) => Err(kind),
            Ok(front) => {
                let message = messages[k - 1];
                if message.msg_type == MSG_LINK {
                    match link_in(message.data, width as int) {
                        Err(kind) => Err(kind),
                        Ok(link) => Ok(front.push(link)),
                    }
                } else if message.msg_type == MSG_LINK_INFO {
                    match kept_elsewhere(message.data, width) {
                        Err(kind) => Err(kind),
                        Ok(None) => Ok(front),
                        Ok(Some((heap, index))) => match heap_links(file, heap, index, width) {
                            Err(kind) => Err(kind),
                            Ok(more) => Ok(front + more),
                        },
                    }
                } else {
                    Ok(front)
                }
            },
        }
    }
}

/// The links of the group whose object header is at `addr`.
pub open spec fn links_at(file: Seq<u8>, addr: u64, width: u8) -> Result<
    Seq<(Seq<char>, LinkModel)>,
    ErrorKind,
> {
    match messages_at(file, addr as int) {
        Err(kind) => Err(kind),
        Ok(messages) => links_in(file, messages, width, messages.len()),
    }
}

proof fn lemma_links_fail(
    file: Seq<u8>,
    messages: Seq<MessageModel>,
    width: u8,
    i: nat,
    k: nat,
)
    requires
        i <= k,
        links_in(file, messages, width, i) is Err,
    ensures
        links_in(file, messages, width, k) == links_in(file, messages, width, i),
    decreases k,
{
    if i < k {
        lemma_links_fail(file, messages, width, i, (k - 1) as nat);
    }
}

fn find_kept_elsewhere(data: &[u8], width: u8) -> (r: Result<Option<(u64, u64)>, OxiH5Error>)
    ensures
        match (r, kept_elsewhere(data@, width)) {
            (Ok(a), Ok(b)) => a == b,
            (Err(e), Err(kind)) => e@ == kind,
            _ => false,
        },
{
    if data.len() < 2 {
        return Err(OxiH5Error::Format("link info message is truncated".to_string()));
    }
    let at: usize = if data[1] % 2 == 1 {
        10
    } else {
        2
    };
    let heap: u64 = read_offset_at(data, at, width as usize)?;
    let nothing: u64 = match width {
        1 => 0xff,
        2 => 0xffff,
        4 => 0xffff_ffff,
        _ => u64::MAX,
    };
    if heap == nothing {
        return Ok(None);
    }
    let index: u64 = read_offset_at(data, at + width as usize, width as usize)?;
    Ok(Some((heap, index)))
}

/// Read the link that a record on a name stands for.
fn read_recorded_link(file_data: &[u8], heap: &Heap, record: &[u8], width: u8) -> (r: Result<
    ParsedLink,
    OxiH5Error,
>)
    requires
        heap.wf(),
    ensures
        outcome(r) == recorded_link(file_data@, *heap, record@, width),
{
    if record.len() < 4 {
        return Err(OxiH5Error::Format("B-tree v2: record truncated".to_string()));
    }
    let id = vstd::slice::slice_subrange(record, 4, record.len());
    proof {
        assert(id@ =~= record@.skip(4));
        assert(file_data.len() <= usize::MAX);
    }
    let (pos, len): (usize, usize) = find_object(file_data, heap, id)?;
    parse_link(vstd::slice::slice_subrange(file_data, pos, pos + len), width)
}

/// Append the links that are kept in a fractal heap.
fn read_heap_links(
    file_data: &[u8],
    heap_address: u64,
    index_address: u64,
    width: u8,
    links: &mut Vec<ParsedLink>,
) -> (r: Result<(), OxiH5Error>)
    ensures
        match (r, heap_links(file_data@, heap_address, index_address, width)) {
            (Ok(()), Ok(more)) => views(final(links)@) == views(old(links)@) + more,
            (Err(e), Err(kind)) => e@ == kind,
            _ => false,
        },
{
    if width != 8 {
        return Err(OxiH5Error::NotImplemented("fractal heap with narrow addresses".to_string()));
    }
    let ghost before = views(links@);
    let heap: Heap = parse_heap(file_data, heap_address)?;
    let tree: Tree = parse_tree(file_data, index_address)?;
    if tree.record_type != RECORD_LINK_NAME {
        return Err(OxiH5Error::Format("B-tree v2: records that are not on names".to_string()));
    }
    let records: Vec<Vec<u8>> = read_records(file_data, &tree)?;
    let ghost all = contents(records@);
    let ghost f = |i: int| recorded_link(file_data@, heap, all[i], width);
    let n: usize = records.len();
    proof {
        assert(before + Seq::empty() =~= before);
    }
    for i in 0..n
        invariant
            n == records@.len(),
            all == contents(records@),
            heap.wf(),
            before == views(old(links)@),
            f == (|i: int| recorded_link(file_data@, heap, all[i], width)),
            heap_links(file_data@, heap_address, index_address, width) == try_each(n as nat, f),
            try_each(i as nat, f) is Ok,
            views(links@) == before + try_each(i as nat, f)->Ok_0,
    {
        let ghost front = views(links@);
        let record = &records[i];
        proof {
            assert(all[i as int] == record@);
            if try_each((i + 1) as nat, f) is Err {
                lemma_try_each_fails((i + 1) as nat, n as nat, f);
            }
        }
        let link: ParsedLink = read_recorded_link(file_data, &heap, record, width)?;
        links.push(link);
        proof {
            assert(views(links@) =~= front.push(link@));
            assert(views(links@) =~= before + try_each((i + 1) as nat, f)->Ok_0);
        }
    }
    Ok(())
}

/// List the links of the group whose object header is at `header_address`, in a file
/// whose addresses have `offset_size` bytes.
pub fn list_new_style_links(file_data: &[u8], header_address: u64, offset_size: u8) -> (r: Result<
    Vec<ParsedLink>,
    OxiH5Error,
>)
    ensures
        outcomes(r) == links_at(file_data@, header_address, offset_size),
{
    let messages: Vec<Message> = parse_messages(file_data, header_address)?;
    let ghost all = views(messages@);
    let mut links: Vec<ParsedLink> = Vec::new();
    let n: usize = messages.len();
    proof {
        assert(views(links@) =~= Seq::empty());
    }
    for i in 0..n
        invariant
            n == messages@.len(),
            all == views(messages@),
            messages_at(file_data@, header_address as int) == Ok::<Seq<MessageModel>, ErrorKind>(
                all,
            ),
            links_in(file_data@, all, offset_size, i as nat) == Ok::<Seq<(Seq<char>, LinkModel)>, ErrorKind>(
                views(links@),
            ),
    {
        let ghost before = views(links@);
        let message = &messages[i];
        proof {
            assert(all[i as int] == message@);
            if links_in(file_data@, all, offset_size, (i + 1) as nat) is Err {
                lemma_links_fail(file_data@, all, offset_size, (i + 1) as nat, n as nat);
            }
        }
        if message.msg_type == MSG_LINK {
            let link: ParsedLink = parse_link(&message.data, offset_size)?;
            links.push(link);
            proof {
                assert(views(links@) =~= before.push(link@));
            }
        } else if message.msg_type == MSG_LINK_INFO {
            if let Some((heap, index)) = find_kept_elsewhere(&message.data, offset_size)? {
                match read_heap_links(file_data, heap, index, offset_size, &mut links) {
                    Err(e) => {
                        return Err(e);
                    },
                    Ok(()) => {},
                }
            }
        }
    }
    Ok(links)
}

/// The first link of that name.
pub open spec fn link_named(links: Seq<(Seq<char>, LinkModel)>, name: Seq<char>) -> Option<
    LinkModel,
>
    decreases links.len(),
{
    if links.len() == 0 {
        None
    } else if links[0].0 == name {
        Some(links[0].1)
    } else {
        link_named(links.skip(1), name)
    }
}

/// Find the first link of that name.
pub fn find_link<'a>(links: &'a [ParsedLink], name: &str) -> (r: Option<&'a Link>)
    ensures
        match (r, link_named(views(links@), name@)) {
            (Some(link), Some(model)) => link@ == model,
            (None, None) => true,
            _ => false,
        },
{
    let ghost all = views(links@);
    proof {
        assert(all.skip(0) =~= all);
    }
    for i in 0..links.len()
        invariant
            all == views(links@),
            link_named(all, name@) == link_named(all.skip(i as int), name@),
    {
        proof {
            assert(all.skip(i as int)[0] == links@[i as int]@);
            assert(all.skip(i as int).skip(1) =~= all.skip(i + 1));
        }
        if same_text(links[i].name.as_str(), name) {
            return Some(&links[i].link);
        }
    }
    None
}

/// Where a soft link leads in the end.
#[derive(Debug)]
pub enum SoftTarget {
    /// An object of the same file, by the address of its header.
    Local(u64),
    /// An object of another file.
    External { file: String, path: String },
}

/// A [`SoftTarget`] as a mathematical value.
pub enum TargetModel {
    Local(u64),
    External { file: Seq<char>, path: Seq<char> },
}

impl View for SoftTarget {
    type V = TargetModel;

    open spec fn view(&self) -> TargetModel {
        match self {
            SoftTarget::Local(address) => TargetModel::Local(*address),
            SoftTarget::External { file, path } => TargetModel::External {
                file: file@,
                path: path@,
            },
        }
    }
}

/// Where the path leads from the root group, and the paths visited then. A path that
/// was visited before is an error; so is a chain of more than `left` soft links.
pub open spec fn followed(
    file: Seq<u8>,
    root: u64,
    path: Seq<char>,
    visited: Seq<Seq<char>>,
    left: nat,
) -> (Result<TargetModel, ErrorKind>, Seq<Seq<char>>)
    decreases left, 0nat,
{
    if visited.contains(path) {
        (Err(ErrorKind::Format), visited)
    } else {
        let now = visited.push(path);
        let names = names_along(path);
        if names.len() == 0 {
            (Ok(TargetModel::Local(root)), now)
        } else {
            match superblock_of(file) {
                Err(kind) => (Err(kind), now),
                Ok(sb) => if left == 0 {
                    (Err(ErrorKind::Format), now)
                } else {
                    walked(file, root, root, names, sb.size_of_offsets, now, (left - 1) as nat)
                },
            }
        }
    }
}

/// Where the names lead from the group at `current`. An external link is an answer
/// only at the end.
pub open spec fn walked(
    file: Seq<u8>,
    root: u64,
    current: u64,
    names: Seq<Seq<char>>,
    width: u8,
    visited: Seq<Seq<char>>,
    left: nat,
) -> (Result<TargetModel, ErrorKind>, Seq<Seq<char>>)
    decreases left, names.len() + 1,
{
    if names.len() == 0 {
        (Ok(TargetModel::Local(current)), visited)
    } else {
        match links_at(file, current, width) {
            Err(kind) => (Err(kind), visited),
            Ok(links) => match link_named(links, names[0]) {
                None => (Err(ErrorKind::NotFound), visited),
                Some(LinkModel::Hard { address }) => walked(
                    file,
                    root,
                    address,
                    names.skip(1),
                    width,
                    visited,
                    left,
                ),
                Some(LinkModel::Soft { path }) => {
                    let (target, now) = followed(file, root, path, visited, left);
                    match target {
                        Err(kind) => (Err(kind), now),
                        Ok(target) => if names.len() == 1 {
                            (Ok(target), now)
                        } else {
                            match target {
                                TargetModel::Local(address) => walked(
                                    file,
                                    root,
                                    address,
                                    names.skip(1),
                                    width,
                                    now,
                                    left,
                                ),
                                TargetModel::External { .. } => (
                                    Err(ErrorKind::NotImplemented),
                                    now,
                                ),
                            }
                        },
                    }
                },
                Some(LinkModel::External { file, path }) => if names.len() == 1 {
                    (Ok(TargetModel::External { file, path }), visited)
                } else {
                    (Err(ErrorKind::NotImplemented), visited)
                },
            },
        }
    }
}

/// Follow a path from the root group, at most `left` soft links deep.
fn follow(
    file_data: &[u8],
    root_header_addr: u64,
    target_path: &str,
    visited: &mut Vec<String>,
    left: u128,
) -> (r: Result<SoftTarget, OxiH5Error>)
    ensures
        ({
            let (target, now) = followed(
                file_data@,
                root_header_addr,
                target_path@,
                views(old(visited)@),
                left as nat,
            );
            outcome(r) == target && views(final(visited)@) == now
        }),
        views(old(visited)@).contains(target_path@) ==> r is Err && r->Err_0.says("cycle"@),
    decreases left,
{
    let ghost before = views(visited@);
    if holds_text(visited, target_path) {
        return Err(
            OxiH5Error::Format(
                text_around(&["soft link "], "cycle", &[" detected at path '", target_path, "'"]),
            ),
        );
    }
    visited.push(target_path.to_string());
    proof {
        assert(views(visited@) =~= before.push(target_path@));
    }
    let names: Vec<&str> = split_names(target_path);
    let n: usize = names.len();
    if n == 0 {
        return Ok(SoftTarget::Local(root_header_addr));
    }
    let sb: Superblock = crate::superblock::parse(file_data)?;
    if left == 0 {
        return Err(OxiH5Error::Format("soft links lead too deep".to_string()));
    }
    let ghost all = views(names@);
    let ghost goal = followed(
        file_data@,
        root_header_addr,
        target_path@,
        before,
        left as nat,
    );
    let mut current: u64 = root_header_addr;
    proof {
        assert(all.skip(0) =~= all);
    }
    for i in 0..n
        invariant
            n == names@.len(),
            all == views(names@),
            left > 0,
            goal == followed(
                file_data@,
                root_header_addr,
                target_path@,
                before,
                left as nat,
            ),
            before == views(old(visited)@),
            !before.contains(target_path@),
            goal == walked(
                file_data@,
                root_header_addr,
                current,
                all.skip(i as int),
                sb.size_of_offsets,
                views(visited@),
                (left - 1) as nat,
            ),
        decreases n - i,
    {
        let ghost rest = all.skip(i as int);
        proof {
            assert(rest[0] == names@[i as int]@);
            assert(rest.skip(1) =~= all.skip(i + 1));
        }
        let links: Vec<ParsedLink> = list_new_style_links(
            file_data,
            current,
            sb.size_of_offsets,
        )?;
        match find_link(&links, names[i]) {
            None => {
                return Err(
                    OxiH5Error::NotFound(
                        text(
                            &[
                                "soft link target '",
                                target_path,
                                "': segment '",
                                names[i],
                                "' not found",
                            ],
                        ),
                    ),
                );
            },
            Some(Link::Hard { address }) => {
                current = *address;
            },
            Some(Link::Soft { path }) => {
                let target: SoftTarget = follow(
                    file_data,
                    root_header_addr,
                    path.as_str(),
                    visited,
                    left - 1,
                )?;
                if i == n - 1 {
                    return Ok(target);
                }
                match target {
                    SoftTarget::Local(address) => {
                        current = address;
                    },
                    SoftTarget::External { .. } => {
                        return Err(
                            OxiH5Error::NotImplemented(
                                "soft link traverses an external link mid-path".to_string(),
                            ),
                        );
                    },
                }
            },
            Some(Link::External { file, path }) => {
                if i == n - 1 {
                    return Ok(
                        SoftTarget::External { file: file.clone(), path: path.clone() },
                    );
                }
                return Err(
                    OxiH5Error::NotImplemented(
                        "soft link traverses an external link mid-path".to_string(),
                    ),
                );
            },
        }
    }
    proof {
        assert(all.skip(n as int).len() == 0);
    }
    Ok(SoftTarget::Local(current))
}

/// More soft links than a file can hold: a link is at one of its bytes, in a message of
/// one of three styles or by itself.
pub open spec fn deepest(file: Seq<u8>) -> nat {
    4 * file.len() + 1
}

/// Where a soft link with that path leads, and the paths visited then. As many soft
/// links are followed as a file can hold.
pub open spec fn soft_target(
    file: Seq<u8>,
    root: u64,
    path: Seq<char>,
    visited: Seq<Seq<char>>,
) -> (Result<TargetModel, ErrorKind>, Seq<Seq<char>>) {
    followed(file, root, path, visited, deepest(file))
}

/// Follow a soft link through hard links, further soft links and an external link at
/// the end.
///
/// `visited` holds the paths followed so far; to come back to one of them is an
/// error, which says that it is a cycle.
pub fn resolve_soft_link_target(
    file_data: &[u8],
    root_header_addr: u64,
    target_path: &str,
    visited: &mut Vec<String>,
) -> (r: Result<SoftTarget, OxiH5Error>)
    ensures
        ({
            let (target, now) = soft_target(
                file_data@,
                root_header_addr,
                target_path@,
                views(old(visited)@),
            );
            outcome(r) == target && views(final(visited)@) == now
        }),
        views(old(visited)@).contains(target_path@) ==> r is Err && r->Err_0.says("cycle"@),
{
    let left: u128 = 4 * file_data.len() as u128 + 1;
    follow(file_data, root_header_addr, target_path, visited, left)
}

/// The address in the same file that a soft link with that path leads to.
pub open spec fn soft_header(
    file: Seq<u8>,
    root: u64,
    path: Seq<char>,
    visited: Seq<Seq<char>>,
) -> Result<u64, ErrorKind> {
    match soft_target(file, root, path, visited).0 {
        Err(kind) => Err(kind),
        Ok(TargetModel::Local(address)) => Ok(address),
        Ok(TargetModel::External { .. }) => Err(ErrorKind::NotImplemented),
    }
}

/// Follow a soft link to an object of the same file; returns the address of its
/// header. An external link on the way is an error.
pub fn resolve_soft_link_to_header(
    file_data: &[u8],
    root_header_addr: u64,
    target_path: &str,
    visited: &mut Vec<String>,
) -> (r: Result<u64, OxiH5Error>)
    ensures
        match (
            r,
            soft_header(file_data@, root_header_addr, target_path@, views(old(visited)@)),
        ) {
            (Ok(a), Ok(b)) => a == b,
            (Err(e), Err(kind)) => e@ == kind,
            _ => false,
        },
        views(final(visited)@) == soft_target(
            file_data@,
            root_header_addr,
            target_path@,
            views(old(visited)@),
        ).1,
        views(old(visited)@).contains(target_path@) ==> r is Err && r->Err_0.says("cycle"@),
{
    match resolve_soft_link_target(file_data, root_header_addr, target_path, visited)? {
        SoftTarget::Local(address) => Ok(address),
        SoftTarget::External { .. } => Err(
            OxiH5Error::NotImplemented(
                "soft link targeting external link not supported".to_string(),
            ),
        ),
    }
}

/// The path of the soft link in the message at `pos`, if there is one.
pub open spec fn soft_path_at(file: Seq<u8>, pos: int, style: Style) -> Seq<char> {
    match link_in(message_at(file, pos, style).data, 8) {
        Ok((_, LinkModel::Soft { path })) => path,
        _ => Seq::empty(),
    }
}

/// The path of the soft link that starts at `pos` by itself, if there is one.
pub open spec fn bare_path_at(file: Seq<u8>, pos: int) -> Seq<char> {
    match link_in(file.subrange(pos, file.len() as int), 8) {
        Ok((_, LinkModel::Soft { path })) => path,
        _ => Seq::empty(),
    }
}

/// The path of the soft link at `pos` of the kind of that number: in a message of one of
/// three styles, or by itself.
pub open spec fn numbered_path(file: Seq<u8>, pos: int, n: int) -> Seq<char> {
    if n == 0 {
        soft_path_at(file, pos, Style::V1)
    } else if n == 1 {
        soft_path_at(file, pos, Style::V2 { indexed: false })
    } else if n == 2 {
        soft_path_at(file, pos, Style::V2 { indexed: true })
    } else {
        bare_path_at(file, pos)
    }
}

/// The paths of all soft links that a file can hold.
pub open spec fn soft_paths(file: Seq<u8>) -> Set<Seq<char>> {
    set_int_range(0, 4 * file.len() as int).map(|n: int| numbered_path(file, n / 4, n % 4))
}

proof fn lemma_soft_paths(file: Seq<u8>)
    ensures
        soft_paths(file).finite(),
        soft_paths(file).len() <= 4 * file.len(),
{
    let f = |n: int| numbered_path(file, n / 4, n % 4);
    lemma_int_range(0, 4 * file.len() as int);
    lemma_map_size_bound(set_int_range(0, 4 * file.len() as int), soft_paths(file), f);
}

proof fn lemma_path_known(file: Seq<u8>, pos: int, k: int)
    requires
        0 <= pos < file.len(),
        0 <= k < 4,
    ensures
        soft_paths(file).contains(numbered_path(file, pos, k)),
{
    let n = 4 * pos + k;
    let f = |n: int| numbered_path(file, n / 4, n % 4);
    assert(n / 4 == pos && n % 4 == k);
    assert(set_int_range(0, 4 * file.len() as int).contains(n));
    assert(f(n) == numbered_path(file, pos, k));
}

proof fn lemma_soft_path_known(file: Seq<u8>, pos: int, style: Style)
    requires
        0 <= pos < file.len(),
    ensures
        soft_paths(file).contains(soft_path_at(file, pos, style)),
{
    let k: int = match style {
        Style::V1 => 0,
        Style::V2 { indexed } => if indexed {
            2
        } else {
            1
        },
    };
    lemma_path_known(file, pos, k);
}

/// A soft link reads the same where more bytes follow.
proof fn lemma_link_prefix(data: Seq<u8>, len: int, width: int)
    requires
        0 <= len <= data.len(),
    ensures
        match link_in(data.take(len), width) {
            Ok((_, LinkModel::Soft { path })) => link_in(data, 8) is Ok && link_in(data, 8)->Ok_0.1
                == (LinkModel::Soft { path }),
            _ => true,
        },
{
    let front = data.take(len);
    if let Ok((_, LinkModel::Soft { path })) = link_in(front, width) {
        let flags = front[1];
        let pos = name_len_pos(flags);
        let wide = name_len_width(flags);
        let from = pos + wide;
        assert(front[0] == data[0] && front[1] == data[1]);
        assert(front[2] == data[2]);
        lemma_le_at_same(front, pos, data, pos, wide);
        let end = from + le_at(data, pos, wide);
        assert(front.subrange(from, end) =~= data.subrange(from, end));
        lemma_le_at_same(front, end, data, end, 2);
        let stop = end + 2 + le_at(data, end, 2);
        assert(front.subrange(end + 2, stop) =~= data.subrange(end + 2, stop));
    }
}

/// The path of a link in a heap is one of those that the file can hold.
proof fn lemma_recorded_known(file: Seq<u8>, heap: Heap, record: Seq<u8>, width: u8)
    ensures
        recorded_link(file, heap, record, width) is Ok ==> path_known(
            file,
            recorded_link(file, heap, record, width)->Ok_0,
        ),
{
    if let Ok((name, LinkModel::Soft { path })) = recorded_link(file, heap, record, width) {
        let (pos, len) = object_place(file, heap, record.skip(4))->Ok_0;
        lemma_place_bounds(file, heap, record.skip(4));
        let rest = file.subrange(pos, file.len() as int);
        assert(file.subrange(pos, pos + len) =~= rest.take(len));
        lemma_link_prefix(rest, len, width as int);
        lemma_path_known(file, pos, 3);
    }
}

proof fn lemma_heap_links_known(file: Seq<u8>, heap: u64, index: u64, width: u8)
    ensures
        heap_links(file, heap, index, width) is Ok ==> forall|i: int|
            0 <= i < heap_links(file, heap, index, width)->Ok_0.len() ==> path_known(
                file,
                #[trigger] heap_links(file, heap, index, width)->Ok_0[i],
            ),
{
    if heap_links(file, heap, index, width) is Ok {
        let h = heap_at(file, heap as int)->Ok_0;
        let tree = tree_at(file, index as int)->Ok_0;
        let records = records_of(file, tree)->Ok_0;
        let f = |i: int| recorded_link(file, h, records[i], width);
        let all = heap_links(file, heap, index, width)->Ok_0;
        lemma_try_each_items(records.len(), f);
        assert forall|i: int| 0 <= i < all.len() implies path_known(file, #[trigger] all[i]) by {
            assert(f(i) == Ok::<(Seq<char>, LinkModel), ErrorKind>(all[i]));
            lemma_recorded_known(file, h, records[i], width);
        }
    }
}

proof fn lemma_try_each_items<T>(n: nat, f: spec_fn(int) -> Result<T, ErrorKind>)
    ensures
        try_each(n, f) is Ok ==> try_each(n, f)->Ok_0.len() == n && forall|i: int|
            0 <= i < n ==> #[trigger] f(i) == Ok::<T, ErrorKind>(try_each(n, f)->Ok_0[i]),
    decreases n,
{
    if n > 0 {
        lemma_try_each_items((n - 1) as nat, f);
    }
}

/// Whether a message is one that the file holds.
pub open spec fn is_held(file: Seq<u8>, message: MessageModel) -> bool {
    exists|pos: int, style: Style|
        0 <= pos < file.len() && message == #[trigger] message_at(file, pos, style)
}

/// Every message that is read is held by the file.
proof fn lemma_messages_held(
    file: Seq<u8>,
    pos: int,
    end: int,
    blocks: Seq<(u64, u64)>,
    style: Style,
    left: nat,
)
    requires
        0 <= pos,
        end <= file.len(),
    ensures
        messages_from(file, pos, end, blocks, style, left) is Ok ==> forall|i: int|
            0 <= i < messages_from(file, pos, end, blocks, style, left)->Ok_0.len() ==> is_held(
                file,
                #[trigger] messages_from(file, pos, end, blocks, style, left)->Ok_0[i],
            ),
    decreases left, blocks.len(),
{
    if left > 0 && messages_from(file, pos, end, blocks, style, left) is Ok {
        if pos + head_len(style) > end {
            if blocks.len() > 0 {
                let (from, to) = block_at(
                    file,
                    blocks[0].0 as int,
                    blocks[0].1 as int,
                    style,
                )->Ok_0;
                lemma_messages_held(file, from, to, blocks.skip(1), style, left);
            }
        } else {
            let len = body_len(file, pos, style);
            let message = message_at(file, pos, style);
            let more = if message.msg_type == CONTINUATION {
                blocks.push(
                    (le_at(message.data, 0, 8) as u64, le_at(message.data, 8, 8) as u64),
                )
            } else {
                blocks
            };
            let next = behind(pos + head_len(style) + stored_len(len, style), end);
            lemma_messages_held(file, next, end, more, style, (left - 1) as nat);
            let rest = messages_from(file, next, end, more, style, (left - 1) as nat)->Ok_0;
            let all = messages_from(file, pos, end, blocks, style, left)->Ok_0;
            assert(all == seq![message] + rest);
            assert forall|i: int| 0 <= i < all.len() implies is_held(file, #[trigger] all[i]) by {
                if i > 0 {
                    assert(all[i] == rest[i - 1]);
                }
            }
        }
    }
}

/// The path of every soft link of a group is one of those that the file can hold.
proof fn lemma_links_known(file: Seq<u8>, messages: Seq<MessageModel>, width: u8, k: nat)
    requires
        k <= messages.len(),
        forall|i: int| 0 <= i < messages.len() ==> is_held(file, #[trigger] messages[i]),
    ensures
        links_in(file, messages, width, k) is Ok ==> forall|i: int|
            0 <= i < links_in(file, messages, width, k)->Ok_0.len() ==> path_known(
                file,
                #[trigger] links_in(file, messages, width, k)->Ok_0[i],
            ),
    decreases k,
{
    if k > 0 && links_in(file, messages, width, k) is Ok {
        lemma_links_known(file, messages, width, (k - 1) as nat);
        let message = messages[k - 1];
        let front = links_in(file, messages, width, (k - 1) as nat)->Ok_0;
        let all = links_in(file, messages, width, k)->Ok_0;
        assert(is_held(file, message));
        let (pos, style) = choose|pos: int, style: Style|
            0 <= pos < file.len() && message == #[trigger] message_at(file, pos, style);
        lemma_soft_path_known(file, pos, style);
        if message.msg_type == MSG_LINK_INFO {
            if let Ok(Some((heap, index))) = kept_elsewhere(message.data, width) {
                lemma_heap_links_known(file, heap, index, width);
                let more = heap_links(file, heap, index, width)->Ok_0;
                assert forall|i: int| front.len() <= i < all.len() implies path_known(
                    file,
                    #[trigger] all[i],
                ) by {
                    assert(all[i] == more[i - front.len()]);
                }
            }
        }
        assert forall|i: int| 0 <= i < all.len() implies path_known(file, #[trigger] all[i]) by {
            if i < front.len() {
                assert(all[i] == front[i]);
            }
        }
    }
}

/// Whether the path of a soft link is one of those that the file can hold.
pub open spec fn path_known(file: Seq<u8>, link: (Seq<char>, LinkModel)) -> bool {
    match link.1 {
        LinkModel::Soft { path } => soft_paths(file).contains(path),
        _ => true,
    }
}

proof fn lemma_named_known(
    file: Seq<u8>,
    links: Seq<(Seq<char>, LinkModel)>,
    name: Seq<char>,
)
    requires
        forall|i: int| 0 <= i < links.len() ==> path_known(file, #[trigger] links[i]),
    ensures
        match link_named(links, name) {
            Some(LinkModel::Soft { path }) => soft_paths(file).contains(path),
            _ => true,
        },
    decreases links.len(),
{
    if links.len() > 0 {
        assert(path_known(file, links[0]));
        let rest = links.skip(1);
        assert forall|i: int| 0 <= i < rest.len() implies path_known(file, #[trigger] rest[i]) by {
            assert(rest[i] == links[i + 1]);
        }
        lemma_named_known(file, rest, name);
    }
}

proof fn lemma_group_links_known(file: Seq<u8>, addr: u64, width: u8)
    ensures
        links_at(file, addr, width) is Ok ==> forall|i: int|
            0 <= i < links_at(file, addr, width)->Ok_0.len() ==> path_known(
                file,
                #[trigger] links_at(file, addr, width)->Ok_0[i],
            ),
{
    if let Ok(messages) = messages_at(file, addr as int) {
        lemma_header_held(file, addr as int);
        lemma_links_known(file, messages, width, messages.len());
    }
}

proof fn lemma_header_held(file: Seq<u8>, addr: int)
    requires
        0 <= addr,
        messages_at(file, addr) is Ok,
    ensures
        forall|i: int|
            0 <= i < messages_at(file, addr)->Ok_0.len() ==> is_held(
                file,
                #[trigger] messages_at(file, addr)->Ok_0[i],
            ),
{
    if tag_at(file, addr, 'O', 'H', 'D', 'R') {
        let flags = file[addr + 5];
        let at = addr + size_pos(flags);
        let from = at + size_width(flags);
        lemma_messages_held(
            file,
            from,
            from + le_at(file, at, size_width(flags)),
            Seq::empty(),
            Style::V2 { indexed: (flags / 4) % 2 == 1 },
            file.len(),
        );
    } else {
        lemma_messages_held(
            file,
            addr + 16,
            addr + 16 + le_at(file, addr + 8, 4),
            Seq::empty(),
            Style::V1,
            le_at(file, addr + 2, 2),
        );
    }
}

/// The soft links of a file that were not followed yet.
pub open spec fn unvisited(file: Seq<u8>, visited: Seq<Seq<char>>) -> Set<Seq<char>> {
    soft_paths(file).difference(visited.to_set())
}

proof fn lemma_unvisited_shrinks(file: Seq<u8>, a: Seq<Seq<char>>, b: Seq<Seq<char>>)
    requires
        a.to_set().subset_of(b.to_set()),
    ensures
        unvisited(file, b).finite(),
        unvisited(file, b).len() <= unvisited(file, a).len(),
{
    lemma_soft_paths(file);
    assert(unvisited(file, a).subset_of(soft_paths(file)));
    lemma_len_subset(unvisited(file, a), soft_paths(file));
    assert(unvisited(file, b).subset_of(unvisited(file, a)));
    lemma_len_subset(unvisited(file, b), unvisited(file, a));
}

proof fn lemma_visit(file: Seq<u8>, visited: Seq<Seq<char>>, path: Seq<char>)
    ensures
        visited.to_set().subset_of(visited.push(path).to_set()),
        soft_paths(file).contains(path) && !visited.contains(path) ==> unvisited(
            file,
            visited.push(path),
        ).len() < unvisited(file, visited).len(),
{
    let now = visited.push(path);
    assert forall|p: Seq<char>| visited.to_set().contains(p) implies now.to_set().contains(p) by {
        let i = visited.index_of(p);
        assert(now[i] == p);
    }
    if soft_paths(file).contains(path) && !visited.contains(path) {
        lemma_soft_paths(file);
        let a = unvisited(file, visited);
        let b = unvisited(file, now);
        assert(a.subset_of(soft_paths(file)));
        lemma_len_subset(a, soft_paths(file));
        assert(a.contains(path));
        assert(now[visited.len() as int] == path);
        assert(!b.contains(path));
        assert(b.subset_of(a.remove(path)));
        lemma_len_subset(b, a.remove(path));
    }
}

/// A limit of at least as many links as were not followed yet is no limit, for a path
/// that a link has.
proof fn lemma_follow_enough(
    file: Seq<u8>,
    root: u64,
    path: Seq<char>,
    visited: Seq<Seq<char>>,
    left: nat,
    more: nat,
)
    requires
        soft_paths(file).contains(path) || left > unvisited(file, visited).len(),
        left >= unvisited(file, visited).len(),
        left <= more,
    ensures
        followed(file, root, path, visited, left) == followed(file, root, path, visited, more),
        visited.to_set().subset_of(followed(file, root, path, visited, left).1.to_set()),
    decreases left, 0nat,
{
    if !visited.contains(path) {
        let now = visited.push(path);
        lemma_visit(file, visited, path);
        lemma_unvisited_shrinks(file, visited, now);
        let names = names_along(path);
        if names.len() > 0 && superblock_of(file) is Ok {
            let width = superblock_of(file)->Ok_0.size_of_offsets;
            assert(left > 0);
            lemma_walk_enough(
                file,
                root,
                root,
                names,
                width,
                now,
                (left - 1) as nat,
                (more - 1) as nat,
            );
        }
    }
}

proof fn lemma_walk_enough(
    file: Seq<u8>,
    root: u64,
    current: u64,
    names: Seq<Seq<char>>,
    width: u8,
    visited: Seq<Seq<char>>,
    left: nat,
    more: nat,
)
    requires
        left >= unvisited(file, visited).len(),
        left <= more,
    ensures
        walked(file, root, current, names, width, visited, left) == walked(
            file,
            root,
            current,
            names,
            width,
            visited,
            more,
        ),
        visited.to_set().subset_of(
            walked(file, root, current, names, width, visited, left).1.to_set(),
        ),
    decreases left, names.len() + 1,
{
    if names.len() > 0 {
        if let Ok(links) = links_at(file, current, width) {
            lemma_group_links_known(file, current, width);
            lemma_named_known(file, links, names[0]);
            match link_named(links, names[0]) {
                Some(LinkModel::Hard { address }) => {
                    lemma_walk_enough(
                        file,
                        root,
                        address,
                        names.skip(1),
                        width,
                        visited,
                        left,
                        more,
                    );
                },
                Some(LinkModel::Soft { path }) => {
                    lemma_follow_enough(file, root, path, visited, left, more);
                    let (target, now) = followed(file, root, path, visited, left);
                    lemma_unvisited_shrinks(file, visited, now);
                    if let Ok(TargetModel::Local(address)) = target {
                        lemma_walk_enough(
                            file,
                            root,
                            address,
                            names.skip(1),
                            width,
                            now,
                            left,
                            more,
                        );
                    }
                },
                _ => {},
            }
        }
    }
}

/// A soft link of a group leads to the same place one level deeper.
pub proof fn lemma_deeper_link(
    file: Seq<u8>,
    root: u64,
    group: u64,
    width: u8,
    name: Seq<char>,
    visited: Seq<Seq<char>>,
)
    requires
        links_at(file, group, width) is Ok,
        link_named(links_at(file, group, width)->Ok_0, name) is Some,
        link_named(links_at(file, group, width)->Ok_0, name)->0 is Soft,
    ensures
        ({
            let path = link_named(links_at(file, group, width)->Ok_0, name)->0->Soft_path;
            followed(file, root, path, visited, (deepest(file) - 1) as nat) == soft_target(
                file,
                root,
                path,
                visited,
            )
        }),
{
    let links = links_at(file, group, width)->Ok_0;
    let path = link_named(links, name)->0->Soft_path;
    lemma_group_links_known(file, group, width);
    lemma_named_known(file, links, name);
    lemma_soft_paths(file);
    assert(unvisited(file, visited).subset_of(soft_paths(file)));
    lemma_len_subset(unvisited(file, visited), soft_paths(file));
    lemma_follow_enough(
        file,
        root,
        path,
        visited,
        (deepest(file) - 1) as nat,
        deepest(file),
    );
}

/// The limit on how deep soft links are followed never decides: any higher limit gives
/// the same answer. A chain of soft links ends, or comes back to a path that it
/// followed before.
pub proof fn law_depth_limit_never_decides(
    file: Seq<u8>,
    root: u64,
    path: Seq<char>,
    visited: Seq<Seq<char>>,
    more: nat,
)
    requires
        more >= deepest(file),
    ensures
        soft_target(file, root, path, visited) == followed(file, root, path, visited, more),
{
    lemma_soft_paths(file);
    assert(unvisited(file, visited).subset_of(soft_paths(file)));
    lemma_len_subset(unvisited(file, visited), soft_paths(file));
    lemma_follow_enough(file, root, path, visited, deepest(file), more);
}

} // verus!
