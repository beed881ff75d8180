//! Members of groups that keep their links as messages, and what leads to them.

use vstd::prelude::*;
use crate::dtype::views;
use crate::error::{outcome, ErrorKind, OxiH5Error};
use crate::file::{
    leads_to_group, linked_child, linked_group, listed_links, root_place, File, Group, ObjectKind,
};
use crate::group::{MSG_LINK_INFO, MSG_SYMBOL_TABLE};
use crate::header::{messages_at, MessageModel};
use crate::laws::link_paths::{hard_chain, leads, lemma_leads};
use crate::laws::objects::no_message;
use crate::link_msg::LinkModel;
use crate::links::{links_at, resolve_soft_link_target, SoftTarget, TargetModel};
use crate::paths::split_names;
use crate::superblock::superblock_of;

verus! {

/// Whether the root group keeps its links as messages.
pub open spec fn linked_root(file: Seq<u8>) -> bool {
    &&& superblock_of(file) is Ok
    &&& messages_at(file, superblock_of(file)->Ok_0.root_object_header_address as int) is Ok
    &&& no_message(
        messages_at(file, superblock_of(file)->Ok_0.root_object_header_address as int)->Ok_0,
        MSG_SYMBOL_TABLE,
    )
}

proof fn lemma_linked_root(file: Seq<u8>)
    requires
        linked_root(file),
    ensures
        root_place(file) is Ok,
        root_place(file)->Ok_0.header == superblock_of(file)->Ok_0.root_object_header_address,
        root_place(file)->Ok_0.table is None,
{
    let messages = messages_at(
        file,
        superblock_of(file)->Ok_0.root_object_header_address as int,
    )->Ok_0;
    lemma_no_table(messages, 0);
}

proof fn lemma_no_table(messages: Seq<MessageModel>, from: int)
    requires
        no_message(messages, MSG_SYMBOL_TABLE),
        0 <= from <= messages.len(),
    ensures
        crate::group::symbol_table_from(messages, from) is None,
    decreases messages.len() - from,
{
    if from < messages.len() {
        assert(messages[from].msg_type != MSG_SYMBOL_TABLE);
        lemma_no_table(messages, from + 1);
    }
}

proof fn lemma_hard_group(file: Seq<u8>, width: u8, groups: Seq<u64>, names: Seq<Seq<char>>)
    requires
        superblock_of(file) is Ok,
        superblock_of(file)->Ok_0.size_of_offsets == width,
        hard_chain(file, width, groups, names),
    ensures
        linked_group(file, groups[0], names) == Ok::<u64, ErrorKind>(groups.last()),
    decreases names.len(),
{
    if names.len() > 0 {
        lemma_leads(file, groups[0], width, names[0], LinkModel::Hard { address: groups[1] });
        let later = groups.skip(1);
        let others = names.skip(1);
        assert forall|i: int| 0 <= i < others.len() implies leads(
            file,
            #[trigger] later[i],
            width,
            others[i],
            LinkModel::Hard { address: later[i + 1] },
        ) by {
            assert(later[i] == groups[i + 1]);
        }
        lemma_hard_group(file, width, later, others);
        assert(linked_child(file, groups[0], names[0]) == Ok::<u64, ErrorKind>(groups[1]));
        assert(later[0] == groups[1]);
        assert(later.last() == groups.last());
    }
}

/// A path along which hard links lead to an object is the path of the object, as a dataset
/// and as a group.
pub proof fn law_path_along_hard_links<'a>(
    file: &File<'a>,
    path: &str,
    names: Vec<&str>,
    groups: Seq<u64>,
    target: Result<SoftTarget, OxiH5Error>,
    header: Result<u64, OxiH5Error>,
    group: Result<Group<'a>, OxiH5Error>,
)
    requires
        linked_root(file.data@),
        call_ensures(split_names, (path,), names),
        names@.len() > 0,
        hard_chain(
            file.data@,
            superblock_of(file.data@)->Ok_0.size_of_offsets,
            groups,
            views(names@),
        ),
        groups[0] == superblock_of(file.data@)->Ok_0.root_object_header_address,
        call_ensures(File::locate_dataset, (file, path), target),
        call_ensures(File::header_addr_of, (file, path), header),
        call_ensures(File::group, (file, path), group),
    ensures
        outcome(target) == Ok::<TargetModel, ErrorKind>(TargetModel::Local(groups.last())),
        header is Ok,
        header->Ok_0 == groups.last(),
        messages_at(file.data@, groups.last() as int) is Ok ==> {
            &&& group is Ok
            &&& group->Ok_0.object_header_address == groups.last()
            &&& group->Ok_0.name@ == names@[names@.len() - 1]@
        },
{
    let f = file.data@;
    let width = superblock_of(f)->Ok_0.size_of_offsets;
    let all = views(names@);
    lemma_linked_root(f);
    let front = all.drop_last();
    let before = groups.drop_last();
    assert forall|i: int| 0 <= i < front.len() implies leads(
        f,
        #[trigger] before[i],
        width,
        front[i],
        LinkModel::Hard { address: before[i + 1] },
    ) by {
        assert(before[i] == groups[i]);
        assert(front[i] == all[i]);
    }
    lemma_hard_group(f, width, before, front);
    lemma_hard_group(f, width, groups, all);
    let n = all.len();
    assert(groups[n - 1] == before.last());
    lemma_leads(
        f,
        groups[n - 1],
        width,
        all[n - 1],
        LinkModel::Hard { address: groups[n as int] },
    );
    assert(all.last() == names@[n - 1]@);
}

/// A path whose last link is soft is the path of what that link leads to; one whose last
/// link is external is that of an object of another file.
pub proof fn law_path_to_other_link<'a>(
    file: &File<'a>,
    path: &str,
    names: Vec<&str>,
    groups: Seq<u64>,
    link: LinkModel,
    next: &str,
    visited: &mut Vec<String>,
    target: Result<SoftTarget, OxiH5Error>,
    header: Result<u64, OxiH5Error>,
    followed: Result<SoftTarget, OxiH5Error>,
)
    requires
        linked_root(file.data@),
        call_ensures(split_names, (path,), names),
        names@.len() > 0,
        hard_chain(
            file.data@,
            superblock_of(file.data@)->Ok_0.size_of_offsets,
            groups,
            views(names@).drop_last(),
        ),
        groups[0] == superblock_of(file.data@)->Ok_0.root_object_header_address,
        leads(
            file.data@,
            groups.last(),
            superblock_of(file.data@)->Ok_0.size_of_offsets,
            views(names@).last(),
            link,
        ),
        call_ensures(File::locate_dataset, (file, path), target),
        call_ensures(File::header_addr_of, (file, path), header),
        old(visited)@.len() == 0,
        call_ensures(
            resolve_soft_link_target,
            (
                file.data,
                superblock_of(file.data@)->Ok_0.root_object_header_address,
                next,
                visited,
            ),
            followed,
        ),
    ensures
        link == (LinkModel::Soft { path: next@ }) ==> outcome(target) == outcome(followed),
        link matches LinkModel::External { file: f, path: p } ==> outcome(target) == Ok::<
            TargetModel,
            ErrorKind,
        >(TargetModel::External { file: f, path: p }),
        !(link is Hard) ==> header is Err && header->Err_0@ == ErrorKind::NotImplemented,
{
    let f = file.data@;
    let width = superblock_of(f)->Ok_0.size_of_offsets;
    let all = views(names@);
    lemma_linked_root(f);
    lemma_hard_group(f, width, groups, all.drop_last());
    lemma_leads(f, groups.last(), width, all.last(), link);
    assert(views(old(visited)@) =~= Seq::<Seq<char>>::empty());
}

/// Whether a header can be read and is one of a group: it has a symbol table message or a
/// link info message.
pub open spec fn group_header(file: Seq<u8>, address: u64) -> bool {
    &&& messages_at(file, address as int) is Ok
    &&& !(no_message(messages_at(file, address as int)->Ok_0, MSG_SYMBOL_TABLE) && no_message(
        messages_at(file, address as int)->Ok_0,
        MSG_LINK_INFO,
    ))
}

/// The members that a group lists are its links which lead to groups, or to other objects,
/// in the order of the links.
pub proof fn law_listed_members<'a>(
    group: &Group<'a>,
    links: Seq<(Seq<char>, LinkModel)>,
    addresses: Seq<u64>,
    at: Seq<int>,
    want_groups: bool,
    r: Result<Vec<String>, OxiH5Error>,
)
    requires
        group.new_style,
        superblock_of(group.file_data@) is Ok,
        links_at(
            group.file_data@,
            group.object_header_address,
            superblock_of(group.file_data@)->Ok_0.size_of_offsets,
        ) == Ok::<Seq<(Seq<char>, LinkModel)>, ErrorKind>(links),
        addresses.len() == links.len(),
        forall|i: int|
            0 <= i < links.len() ==> (#[trigger] links[i]).1 == (LinkModel::Hard {
                address: addresses[i],
            }),
        forall|i: int, j: int| 0 <= i < j < at.len() ==> #[trigger] at[i] < #[trigger] at[j],
        forall|i: int| 0 <= i < at.len() ==> 0 <= #[trigger] at[i] < links.len(),
        forall|i: int|
            0 <= i < at.len() ==> group_header(group.file_data@, addresses[#[trigger] at[i]])
                == want_groups,
        forall|k: int|
            0 <= k < links.len() && group_header(group.file_data@, #[trigger] addresses[k])
                == want_groups ==> at.contains(k),
        if want_groups {
            call_ensures(Group::groups, (group,), r)
        } else {
            call_ensures(Group::datasets, (group,), r)
        },
    ensures
        r is Ok,
        r->Ok_0@.len() == at.len(),
        forall|i: int| 0 <= i < at.len() ==> (#[trigger] r->Ok_0@[i])@ == links[at[i]].0,
{
    let f = group.file_data@;
    let root = superblock_of(f)->Ok_0.root_object_header_address;
    lemma_listed(f, root, links, addresses, at, want_groups, links.len(), at.len());
    assert(links.take(links.len() as int) =~= links);
    let found = views(r->Ok_0@);
    assert(found.len() == r->Ok_0@.len());
    assert forall|i: int| 0 <= i < at.len() implies (#[trigger] r->Ok_0@[i])@ == links[at[i]].0 by {
        assert(found[i] == r->Ok_0@[i]@);
        assert(found[i] == names_at(links, at, at.len())[i]);
    }
}

spec fn names_at(links: Seq<(Seq<char>, LinkModel)>, at: Seq<int>, n: nat) -> Seq<Seq<char>> {
    Seq::new(n, |i: int| links[at[i]].0)
}

proof fn lemma_listed(
    file: Seq<u8>,
    root: u64,
    links: Seq<(Seq<char>, LinkModel)>,
    addresses: Seq<u64>,
    at: Seq<int>,
    want_groups: bool,
    k: nat,
    n: nat,
)
    requires
        k <= links.len(),
        n <= at.len(),
        addresses.len() == links.len(),
        forall|i: int|
            0 <= i < links.len() ==> (#[trigger] links[i]).1 == (LinkModel::Hard {
                address: addresses[i],
            }),
        forall|i: int, j: int| 0 <= i < j < at.len() ==> #[trigger] at[i] < #[trigger] at[j],
        forall|i: int| 0 <= i < at.len() ==> 0 <= #[trigger] at[i] < links.len(),
        forall|i: int|
            0 <= i < at.len() ==> group_header(file, addresses[#[trigger] at[i]]) == want_groups,
        forall|j: int|
            0 <= j < links.len() && group_header(file, #[trigger] addresses[j]) == want_groups
                ==> at.contains(j),
        forall|i: int| 0 <= i < n ==> #[trigger] at[i] < k,
        forall|i: int| n <= i < at.len() ==> k <= #[trigger] at[i],
    ensures
        listed_links(file, root, links.take(k as int), want_groups) == names_at(links, at, n),
    decreases k,
{
    let front = links.take(k as int);
    if k == 0 {
        if n > 0 {
            assert(at[0] < k);
        }
        assert(names_at(links, at, n) =~= Seq::empty());
    } else {
        let last = links[k - 1];
        assert(front.last() == last);
        assert(front.drop_last() =~= links.take(k - 1));
        assert(last.1 == (LinkModel::Hard { address: addresses[k - 1] }));
        lemma_group_header(file, addresses[k - 1]);
        if group_header(file, addresses[k - 1]) == want_groups {
            assert(at.contains(k - 1));
            let i = choose|i: int| 0 <= i < at.len() && at[i] == k - 1;
            assert(i < n) by {
                if i >= n {
                    assert(k <= at[i]);
                }
            }
            assert(i == n - 1) by {
                if i < n - 1 {
                    assert(at[i] < at[n - 1]);
                }
            }
            assert forall|j: int| 0 <= j < n - 1 implies #[trigger] at[j] < k - 1 by {
                assert(at[j] < at[n - 1]);
            }
            lemma_listed(
                file,
                root,
                links,
                addresses,
                at,
                want_groups,
                (k - 1) as nat,
                (n - 1) as nat,
            );
            assert(names_at(links, at, (n - 1) as nat).push(last.0) =~= names_at(links, at, n));
        } else {
            assert forall|j: int| 0 <= j < n implies #[trigger] at[j] < k - 1 by {
                assert(group_header(file, addresses[at[j]]) == want_groups);
                assert(at[j] < k);
            }
            lemma_listed(file, root, links, addresses, at, want_groups, (k - 1) as nat, n);
        }
    }
}

proof fn lemma_group_header(file: Seq<u8>, address: u64)
    ensures
        leads_to_group(file, address) == group_header(file, address),
{
}

/// What an object reference leads to is a group where the header there is one of a group,
/// and a dataset otherwise; an undefined reference leads nowhere.
pub proof fn law_referenced_object<'a>(
    file: &mut File<'a>,
    address: u64,
    r: Result<ObjectKind<'a>, OxiH5Error>,
)
    requires
        call_ensures(File::object_at, (file, address), r),
    ensures
        address == u64::MAX ==> r is Err && r->Err_0@ == ErrorKind::NotFound,
        address != u64::MAX && group_header(old(file).data@, address) ==> {
            &&& r is Ok
            &&& r->Ok_0 is Group
            &&& r->Ok_0->Group_0.object_header_address == address
        },
        !group_header(old(file).data@, address) ==> (r is Ok ==> r->Ok_0 is Dataset),
{
}

/// Where a dataset can be read, or a group be opened, there is something.
pub proof fn law_what_opens_is_there<'a>(
    file: &File<'a>,
    path: &str,
    there: bool,
    target: Result<SoftTarget, OxiH5Error>,
    group: Result<Group<'a>, OxiH5Error>,
)
    requires
        call_ensures(File::contains, (file, path), there),
        call_ensures(File::locate_dataset, (file, path), target),
        call_ensures(File::group, (file, path), group),
    ensures
        there <==> group is Ok || (target is Ok && target->Ok_0 is Local && messages_at(
            file.data@,
            target->Ok_0->Local_0 as int,
        ) is Ok),
{
}

} // verus!
