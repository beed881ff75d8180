//! Paths and links: which names a path has, and where they lead.

use vstd::prelude::*;
use crate::dtype::views;
use crate::error::{outcome, outcomes, ErrorKind, OxiH5Error};
use crate::file::joined_path;
use crate::laws::messages::{link_fits, link_image};
use crate::link_msg::{LinkModel, ParsedLink};
use crate::object::Link;
use crate::links::{
    deepest, find_link, followed, lemma_deeper_link, link_named, links_at, links_in,
    list_new_style_links, resolve_soft_link_target, resolve_soft_link_to_header, walked, SoftTarget,
    TargetModel,
};
use crate::group::{MSG_LINK, MSG_LINK_INFO};
use crate::header::{messages_at, MessageModel};
use crate::paths::{names_along, non_empty, parts_from, parts_of, slash_from, split_names};
use crate::roundtrip::writer::law_plain_name_is_path;
use crate::superblock::superblock_of;

verus! {

/// What lies between the slashes of two strings with a slash between them.
proof fn lemma_joined_parts(a: Seq<char>, b: Seq<char>, from: int)
    requires
        0 <= from <= a.len(),
    ensures
        parts_from(a + seq!['/'] + b, from) == parts_from(a, from) + parts_of(b),
    decreases a.len() - from,
{
    let s = a + seq!['/'] + b;
    lemma_joined_slash(a, b, from);
    let at = slash_from(a, from);
    if at >= a.len() {
        assert(s.subrange(from, a.len() as int) =~= a.subrange(from, a.len() as int));
        lemma_tail_parts(s, b, a.len() as int + 1, 0);
        assert(parts_from(s, from) == seq![s.subrange(from, a.len() as int)] + parts_from(
            s,
            a.len() as int + 1,
        ));
    } else {
        assert(s.subrange(from, at) =~= a.subrange(from, at));
        lemma_joined_parts(a, b, at + 1);
        assert(parts_from(s, from) == seq![s.subrange(from, at)] + parts_from(s, at + 1));
        assert(seq![a.subrange(from, at)] + (parts_from(a, at + 1) + parts_of(b)) =~= (seq![
            a.subrange(from, at),
        ] + parts_from(a, at + 1)) + parts_of(b));
    }
}

proof fn lemma_joined_slash(a: Seq<char>, b: Seq<char>, from: int)
    requires
        0 <= from <= a.len(),
    ensures
        slash_from(a + seq!['/'] + b, from) == slash_from(a, from),
        from <= slash_from(a, from) <= a.len(),
    decreases a.len() - from,
{
    let s = a + seq!['/'] + b;
    if from < a.len() {
        assert(s[from] == a[from]);
        if a[from] != '/' {
            lemma_joined_slash(a, b, from + 1);
        }
    } else {
        assert(s[from] == '/');
    }
}

/// The parts of a string are those of its end.
proof fn lemma_tail_parts(s: Seq<char>, b: Seq<char>, at: int, from: int)
    requires
        0 <= at,
        at + b.len() == s.len(),
        forall|i: int| 0 <= i < b.len() ==> s[at + i] == #[trigger] b[i],
        0 <= from <= b.len(),
    ensures
        parts_from(s, at + from) == parts_from(b, from),
    decreases b.len() - from,
{
    lemma_tail_slash(s, b, at, from);
    let end = slash_from(b, from);
    if end >= b.len() {
        assert(s.subrange(at + from, s.len() as int) =~= b.subrange(from, b.len() as int));
    } else {
        assert(s.subrange(at + from, at + end) =~= b.subrange(from, end));
        lemma_tail_parts(s, b, at, end + 1);
    }
}

proof fn lemma_tail_slash(s: Seq<char>, b: Seq<char>, at: int, from: int)
    requires
        0 <= at,
        at + b.len() == s.len(),
        forall|i: int| 0 <= i < b.len() ==> s[at + i] == #[trigger] b[i],
        0 <= from <= b.len(),
    ensures
        slash_from(s, at + from) == at + slash_from(b, from),
        from <= slash_from(b, from) <= b.len(),
    decreases b.len() - from,
{
    if from < b.len() {
        assert(s[at + from] == b[from]);
        if b[from] != '/' {
            lemma_tail_slash(s, b, at, from + 1);
        }
    }
}

proof fn lemma_non_empty(a: Seq<Seq<char>>, b: Seq<Seq<char>>)
    ensures
        non_empty(a + b) == non_empty(a) + non_empty(b),
    decreases b.len(),
{
    if b.len() == 0 {
        assert(a + b =~= a);
        assert(non_empty(a) + non_empty(b) =~= non_empty(a));
    } else {
        assert((a + b).drop_last() =~= a + b.drop_last());
        assert((a + b).last() == b.last());
        lemma_non_empty(a, b.drop_last());
        assert(non_empty(a) + non_empty(b.drop_last()).push(b.last()) =~= (non_empty(a)
            + non_empty(b.drop_last())).push(b.last()));
    }
}

/// The names along two paths with a slash between them are those along the first and then
/// those along the second.
pub proof fn law_names_along_joined_paths(
    a: &str,
    b: &str,
    path: &str,
    first: Vec<&str>,
    second: Vec<&str>,
    all: Vec<&str>,
)
    requires
        path@ == a@ + seq!['/'] + b@,
        call_ensures(split_names, (a,), first),
        call_ensures(split_names, (b,), second),
        call_ensures(split_names, (path,), all),
    ensures
        views(all@) == views(first@) + views(second@),
{
    lemma_joined_names(a@, b@);
}

pub proof fn lemma_joined_names(a: Seq<char>, b: Seq<char>)
    ensures
        names_along(a + seq!['/'] + b) == names_along(a) + names_along(b),
{
    lemma_joined_parts(a, b, 0);
    lemma_non_empty(parts_of(a), parts_of(b));
}

proof fn lemma_no_names()
    ensures
        names_along(Seq::<char>::empty()) == Seq::<Seq<char>>::empty(),
{
    let none = Seq::<char>::empty();
    let parts = parts_of(none);
    assert(slash_from(none, 0) == 0);
    assert(none.subrange(0, 0) =~= none);
    assert(parts == seq![none.subrange(0, none.len() as int)]);
    assert(parts.drop_last() =~= Seq::<Seq<char>>::empty());
    assert(non_empty(parts.drop_last()) =~= Seq::<Seq<char>>::empty());
}

/// Nothing is along no path, and a name by itself is along one that is the name.
pub proof fn law_names_along_plain_path(path: &str, r: Vec<&str>)
    requires
        call_ensures(split_names, (path,), r),
    ensures
        path@.len() == 0 ==> r@.len() == 0,
        path@.len() > 0 && !path@.contains('/') ==> r@.len() == 1 && r@[0]@ == path@,
{
    let s = path@;
    assert(views(r@).len() == r@.len());
    if s.len() == 0 {
        assert(s =~= Seq::<char>::empty());
        lemma_no_names();
    } else if !s.contains('/') {
        law_plain_name_is_path(s);
        assert(views(r@)[0] == r@[0]@);
    }
}

/// The path of a member of a group has the names of the path of the group, and then the
/// name of the member.
pub proof fn law_path_of_member(path: Seq<char>, name: Seq<char>)
    requires
        name.len() > 0,
        !name.contains('/'),
    ensures
        names_along(joined_path(path, name)) == names_along(path).push(name),
{
    law_plain_name_is_path(name);
    if path == seq!['/'] {
        let none = Seq::<char>::empty();
        assert(path =~= none + seq!['/'] + none);
        assert(path + name =~= none + seq!['/'] + name);
        lemma_joined_names(none, none);
        lemma_joined_names(none, name);
        lemma_no_names();
        assert(names_along(path) =~= Seq::<Seq<char>>::empty());
        assert(names_along(path + name) =~= names_along(path).push(name));
    } else {
        lemma_joined_names(path, name);
        assert(names_along(path) + seq![name] =~= names_along(path).push(name));
    }
}

/// The link that is found by a name is the first of that name; none is found where no link
/// has it.
pub proof fn law_first_link_is_found(links: &[ParsedLink], name: &str, r: Option<&Link>, i: int)
    requires
        call_ensures(find_link, (links, name), r),
    ensures
        0 <= i < links@.len() && links@[i].name@ == name@ && (forall|j: int|
            0 <= j < i ==> (#[trigger] links@[j]).name@ != name@) ==> r is Some && r->0@
            == links@[i].link@,
        (forall|j: int| 0 <= j < links@.len() ==> (#[trigger] links@[j]).name@ != name@)
            ==> r is None,
{
    let all = views(links@);
    if 0 <= i < links@.len() && links@[i].name@ == name@ && (forall|j: int|
        0 <= j < i ==> (#[trigger] links@[j]).name@ != name@) {
        assert(all[i] == (links@[i].name@, links@[i].link@));
        assert forall|j: int| 0 <= j < i implies (#[trigger] all[j]).0 != name@ by {
            assert(all[j] == links@[j]@);
        }
        lemma_first_named(all, name@, i);
    }
    if forall|j: int| 0 <= j < links@.len() ==> (#[trigger] links@[j]).name@ != name@ {
        assert forall|j: int| 0 <= j < all.len() implies (#[trigger] all[j]).0 != name@ by {
            assert(all[j] == links@[j]@);
        }
        lemma_none_named(all, name@);
    }
}

proof fn lemma_first_named(links: Seq<(Seq<char>, LinkModel)>, name: Seq<char>, i: int)
    requires
        0 <= i < links.len(),
        links[i].0 == name,
        forall|j: int| 0 <= j < i ==> (#[trigger] links[j]).0 != name,
    ensures
        link_named(links, name) == Some(links[i].1),
    decreases links.len(),
{
    if i > 0 {
        assert(links[0].0 != name);
        let rest = links.skip(1);
        assert(rest[i - 1] == links[i]);
        assert forall|j: int| 0 <= j < i - 1 implies (#[trigger] rest[j]).0 != name by {
            assert(rest[j] == links[j + 1]);
        }
        lemma_first_named(rest, name, i - 1);
    }
}

proof fn lemma_none_named(links: Seq<(Seq<char>, LinkModel)>, name: Seq<char>)
    requires
        forall|j: int| 0 <= j < links.len() ==> (#[trigger] links[j]).0 != name,
    ensures
        link_named(links, name) is None,
    decreases links.len(),
{
    if links.len() > 0 {
        assert(links[0].0 != name);
        let rest = links.skip(1);
        assert forall|j: int| 0 <= j < rest.len() implies (#[trigger] rest[j]).0 != name by {
            assert(rest[j] == links[j + 1]);
        }
        lemma_none_named(rest, name);
    }
}

/// How a link is written down.
pub struct LinkForm {
    pub code: int,
    pub order: Option<u64>,
    pub charset: Option<u8>,
    pub flags: u8,
}

/// The links of a group that keeps them in its header are those of its link messages, one
/// for each, in their order. Messages of other kinds give none.
pub proof fn law_links_in_header(
    file: &[u8],
    address: u64,
    width: u8,
    messages: Seq<MessageModel>,
    at: Seq<int>,
    links: Seq<(Seq<char>, LinkModel)>,
    forms: Seq<LinkForm>,
    r: Result<Vec<ParsedLink>, OxiH5Error>,
)
    requires
        messages_at(file@, address as int) == Ok::<Seq<MessageModel>, ErrorKind>(messages),
        at.len() == links.len() == forms.len(),
        forall|i: int| 0 <= i < at.len() ==> 0 <= #[trigger] at[i] < messages.len(),
        forall|i: int, j: int| 0 <= i < j < at.len() ==> #[trigger] at[i] < #[trigger] at[j],
        forall|k: int|
            0 <= k < messages.len() && (#[trigger] messages[k]).msg_type == MSG_LINK
                ==> at.contains(k),
        forall|k: int|
            0 <= k < messages.len() ==> (#[trigger] messages[k]).msg_type != MSG_LINK_INFO,
        forall|i: int|
            0 <= i < at.len() ==> {
                let f = forms[i];
                let link = #[trigger] links[i];
                &&& link_fits(link.0, link.1, f.code, width as nat)
                &&& messages[at[i]].msg_type == MSG_LINK
                &&& messages[at[i]].data == link_image(
                    link.0,
                    link.1,
                    f.code,
                    f.order,
                    f.charset,
                    width as nat,
                    f.flags,
                )
            },
        call_ensures(list_new_style_links, (file, address, width), r),
    ensures
        outcomes(r) == Ok::<Seq<(Seq<char>, LinkModel)>, ErrorKind>(links),
{
    lemma_links_listed(file@, width, messages, at, links, forms, messages.len(), at.len());
    assert(links.take(at.len() as int) =~= links);
}

proof fn lemma_links_listed(
    file: Seq<u8>,
    width: u8,
    messages: Seq<MessageModel>,
    at: Seq<int>,
    links: Seq<(Seq<char>, LinkModel)>,
    forms: Seq<LinkForm>,
    k: nat,
    n: nat,
)
    requires
        at.len() == links.len() == forms.len(),
        k <= messages.len(),
        n <= at.len(),
        forall|i: int| 0 <= i < at.len() ==> 0 <= #[trigger] at[i] < messages.len(),
        forall|i: int, j: int| 0 <= i < j < at.len() ==> #[trigger] at[i] < #[trigger] at[j],
        forall|j: int|
            0 <= j < messages.len() && (#[trigger] messages[j]).msg_type == MSG_LINK
                ==> at.contains(j),
        forall|j: int|
            0 <= j < messages.len() ==> (#[trigger] messages[j]).msg_type != MSG_LINK_INFO,
        forall|i: int|
            0 <= i < at.len() ==> {
                let f = forms[i];
                let link = #[trigger] links[i];
                &&& link_fits(link.0, link.1, f.code, width as nat)
                &&& messages[at[i]].msg_type == MSG_LINK
                &&& messages[at[i]].data == link_image(
                    link.0,
                    link.1,
                    f.code,
                    f.order,
                    f.charset,
                    width as nat,
                    f.flags,
                )
            },
        forall|i: int| 0 <= i < n ==> #[trigger] at[i] < k,
        forall|i: int| n <= i < at.len() ==> k <= #[trigger] at[i],
    ensures
        links_in(file, messages, width, k) == Ok::<Seq<(Seq<char>, LinkModel)>, ErrorKind>(
            links.take(n as int),
        ),
    decreases k,
{
    if k == 0 {
        if n > 0 {
            assert(at[0] < k);
        }
        assert(links.take(n as int) =~= Seq::empty());
    } else {
        let last = messages[k - 1];
        if last.msg_type == MSG_LINK {
            assert(at.contains(k - 1));
            let i = choose|i: int| 0 <= i < at.len() && at[i] == k - 1;
            assert(i < n) by {
                if i >= n {
                    assert(k <= at[i]);
                }
            }
            assert(i == n - 1) by {
                if i < n - 1 {
                    assert(at[i] < at[n - 1]);
                }
            }
            let link = links[i];
            let f = forms[i];
            crate::laws::messages::lemma_link_back(
                last.data,
                width,
                link.0,
                link.1,
                f.code,
                f.order,
                f.charset,
                f.flags,
            );
            assert forall|j: int| 0 <= j < n - 1 implies #[trigger] at[j] < k - 1 by {
                assert(at[j] < at[n - 1]);
            }
            lemma_links_listed(
                file,
                width,
                messages,
                at,
                links,
                forms,
                (k - 1) as nat,
                (n - 1) as nat,
            );
            assert(links.take(n - 1).push(link) =~= links.take(n as int));
        } else {
            assert forall|j: int| 0 <= j < n implies #[trigger] at[j] < k - 1 by {
                let link = links[j];
                assert(messages[at[j]].msg_type == MSG_LINK);
                assert(at[j] < k);
            }
            lemma_links_listed(file, width, messages, at, links, forms, (k - 1) as nat, n);
        }
    }
}

/// Whether the first of these links with that name is that one.
pub open spec fn first_named(
    links: Seq<(Seq<char>, LinkModel)>,
    name: Seq<char>,
    link: LinkModel,
) -> bool {
    exists|i: int|
        {
            &&& 0 <= i < links.len()
            &&& #[trigger] links[i] == (name, link)
            &&& forall|j: int| 0 <= j < i ==> (#[trigger] links[j]).0 != name
        }
}

/// Whether the links of a group lead, by that name, to that.
pub open spec fn leads(
    file: Seq<u8>,
    group: u64,
    width: u8,
    name: Seq<char>,
    link: LinkModel,
) -> bool {
    &&& links_at(file, group, width) is Ok
    &&& first_named(links_at(file, group, width)->Ok_0, name, link)
}

pub proof fn lemma_leads(file: Seq<u8>, group: u64, width: u8, name: Seq<char>, link: LinkModel)
    requires
        leads(file, group, width, name, link),
    ensures
        link_named(links_at(file, group, width)->Ok_0, name) == Some(link),
{
    let links = links_at(file, group, width)->Ok_0;
    let i = choose|i: int|
        {
            &&& 0 <= i < links.len()
            &&& #[trigger] links[i] == (name, link)
            &&& forall|j: int| 0 <= j < i ==> (#[trigger] links[j]).0 != name
        };
    lemma_first_named(links, name, i);
}

/// Whether hard links lead from each of these groups to the next, by these names.
pub open spec fn hard_chain(
    file: Seq<u8>,
    width: u8,
    groups: Seq<u64>,
    names: Seq<Seq<char>>,
) -> bool {
    &&& groups.len() == names.len() + 1
    &&& forall|i: int|
        0 <= i < names.len() ==> leads(
            file,
            #[trigger] groups[i],
            width,
            names[i],
            LinkModel::Hard { address: groups[i + 1] },
        )
}

/// Names that hard links lead along first.
proof fn lemma_hard_chain(
    file: Seq<u8>,
    root: u64,
    groups: Seq<u64>,
    names: Seq<Seq<char>>,
    rest: Seq<Seq<char>>,
    width: u8,
    visited: Seq<Seq<char>>,
    left: nat,
)
    requires
        hard_chain(file, width, groups, names),
    ensures
        walked(file, root, groups[0], names + rest, width, visited, left) == walked(
            file,
            root,
            groups.last(),
            rest,
            width,
            visited,
            left,
        ),
    decreases names.len(),
{
    if names.len() == 0 {
        assert(names + rest =~= rest);
    } else {
        let all = names + rest;
        lemma_leads(file, groups[0], width, names[0], LinkModel::Hard { address: groups[1] });
        let later = groups.skip(1);
        let others = names.skip(1);
        assert(all.skip(1) =~= others + rest);
        assert forall|i: int| 0 <= i < others.len() implies leads(
            file,
            #[trigger] later[i],
            width,
            others[i],
            LinkModel::Hard { address: later[i + 1] },
        ) by {
            assert(later[i] == groups[i + 1]);
        }
        lemma_hard_chain(file, root, later, others, rest, width, visited, left);
        assert(later[0] == groups[1]);
        assert(later.last() == groups.last());
    }
}

/// A path along which hard links lead ends where the last of them leads.
pub proof fn law_hard_links_lead_to_end(
    file: &[u8],
    root: u64,
    path: &str,
    visited: &mut Vec<String>,
    names: Vec<&str>,
    groups: Seq<u64>,
    r: Result<SoftTarget, OxiH5Error>,
)
    requires
        call_ensures(split_names, (path,), names),
        superblock_of(file@) is Ok,
        hard_chain(
            file@,
            superblock_of(file@)->Ok_0.size_of_offsets,
            groups,
            views(names@),
        ),
        groups[0] == root,
        !views(old(visited)@).contains(path@),
        call_ensures(resolve_soft_link_target, (file, root, path, visited), r),
    ensures
        outcome(r) == Ok::<TargetModel, ErrorKind>(TargetModel::Local(groups.last())),
{
    let width = superblock_of(file@)->Ok_0.size_of_offsets;
    let all = views(names@);
    let none = Seq::<Seq<char>>::empty();
    let now = views(old(visited)@).push(path@);
    let left = deepest(file@);
    if all.len() > 0 {
        lemma_hard_chain(file@, root, groups, all, none, width, now, (left - 1) as nat);
        assert(all + none =~= all);
    }
}

/// A path whose last link is soft ends where the path of that link leads; and one whose
/// last link is external leads to the other file.
pub proof fn law_last_link(
    file: &[u8],
    root: u64,
    path: &str,
    visited: &mut Vec<String>,
    names: Vec<&str>,
    groups: Seq<u64>,
    link: LinkModel,
    next: &str,
    visited_then: &mut Vec<String>,
    r: Result<SoftTarget, OxiH5Error>,
    s: Result<SoftTarget, OxiH5Error>,
)
    requires
        call_ensures(split_names, (path,), names),
        names@.len() > 0,
        superblock_of(file@) is Ok,
        hard_chain(
            file@,
            superblock_of(file@)->Ok_0.size_of_offsets,
            groups,
            views(names@).drop_last(),
        ),
        groups[0] == root,
        leads(
            file@,
            groups.last(),
            superblock_of(file@)->Ok_0.size_of_offsets,
            views(names@).last(),
            link,
        ),
        !views(old(visited)@).contains(path@),
        call_ensures(resolve_soft_link_target, (file, root, path, visited), r),
        views(old(visited_then)@) == views(old(visited)@).push(path@),
        call_ensures(resolve_soft_link_target, (file, root, next, visited_then), s),
    ensures
        link == (LinkModel::Soft { path: next@ }) ==> outcome(r) == outcome(s),
        link matches LinkModel::External { file: f, path: p } ==> outcome(r) == Ok::<
            TargetModel,
            ErrorKind,
        >(TargetModel::External { file: f, path: p }),
{
    let width = superblock_of(file@)->Ok_0.size_of_offsets;
    let all = views(names@);
    let front = all.drop_last();
    let last = seq![all.last()];
    let now = views(old(visited)@).push(path@);
    let left = deepest(file@);
    assert(front + last =~= all);
    lemma_hard_chain(file@, root, groups, front, last, width, now, (left - 1) as nat);
    lemma_leads(file@, groups.last(), width, all.last(), link);
    if link is Soft {
        lemma_deeper_link(file@, root, groups.last(), width, all.last(), now);
    }
    assert(last[0] == all.last());
    assert(followed(file@, root, path@, views(old(visited)@), left) == walked(
        file@,
        root,
        root,
        all,
        width,
        now,
        (left - 1) as nat,
    ));
}

/// A path with a name that the group before it does not have leads nowhere.
pub proof fn law_missing_name(
    file: &[u8],
    root: u64,
    path: &str,
    visited: &mut Vec<String>,
    names: Vec<&str>,
    groups: Seq<u64>,
    k: int,
    r: Result<SoftTarget, OxiH5Error>,
)
    requires
        call_ensures(split_names, (path,), names),
        0 <= k < names@.len(),
        superblock_of(file@) is Ok,
        ({
            let width = superblock_of(file@)->Ok_0.size_of_offsets;
            &&& hard_chain(file@, width, groups, views(names@).take(k))
            &&& links_at(file@, groups.last(), width) is Ok
            &&& forall|j: int|
                0 <= j < links_at(file@, groups.last(), width)->Ok_0.len() ==> (
                #[trigger] links_at(file@, groups.last(), width)->Ok_0[j]).0 != names@[k]@
        }),
        groups[0] == root,
        !views(old(visited)@).contains(path@),
        call_ensures(resolve_soft_link_target, (file, root, path, visited), r),
    ensures
        outcome(r) == Err::<TargetModel, ErrorKind>(ErrorKind::NotFound),
{
    let width = superblock_of(file@)->Ok_0.size_of_offsets;
    let all = views(names@);
    let front = all.take(k);
    let rest = all.skip(k);
    let now = views(old(visited)@).push(path@);
    let left = deepest(file@);
    assert(front + rest =~= all);
    lemma_hard_chain(file@, root, groups, front, rest, width, now, (left - 1) as nat);
    assert(rest[0] == names@[k]@);
    lemma_none_named(links_at(file@, groups.last(), width)->Ok_0, names@[k]@);
}

/// To follow a path to a header is to follow it to an object of the same file.
pub proof fn law_header_is_local_target(
    file: &[u8],
    root: u64,
    path: &str,
    visited: &mut Vec<String>,
    again: &mut Vec<String>,
    r: Result<SoftTarget, OxiH5Error>,
    s: Result<u64, OxiH5Error>,
)
    requires
        call_ensures(resolve_soft_link_target, (file, root, path, visited), r),
        views(old(again)@) == views(old(visited)@),
        call_ensures(resolve_soft_link_to_header, (file, root, path, again), s),
    ensures
        r is Err ==> s is Err && s->Err_0@ == r->Err_0@,
        r is Ok && r->Ok_0 is Local ==> s is Ok && r->Ok_0@ == TargetModel::Local(s->Ok_0),
        r is Ok && r->Ok_0 is External ==> s is Err && s->Err_0@ == ErrorKind::NotImplemented,
{
}

} // verus!
