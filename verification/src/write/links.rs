//! The links of a group in the order in which they are written, and the local heap
//! that holds their names.

use vstd::prelude::*;
use vstd::string::*;
use vstd::utf8::encode_utf8;
use crate::bytes::{
    le_bytes, lemma_le_bytes_len, push_all, push_le, push_zeros, zeros,
};
use crate::dtype::views;
use crate::global_heap::align8;
use crate::write::attr::{pad8, padded, push_padded};
use crate::write::tree::{lemma_group_model, DatasetDesc, GroupModel, GroupNode};

verus! {

/// What a link leads to, by its place in its group.
#[derive(Debug, Clone, Copy, PartialEq, Eq, Structural)]
pub enum LinkTarget {
    Dataset(usize),
    Group(usize),
}

/// A link of a group.
#[derive(Debug, Clone, Copy)]
pub struct Link<'a> {
    pub name: &'a str,
    pub target: LinkTarget,
}

/// A [`Link`] as a mathematical value: its name by its bytes.
pub struct LinkModel {
    pub name: Seq<u8>,
    pub target: LinkTarget,
}

impl<'a> View for Link<'a> {
    type V = LinkModel;

    open spec fn view(&self) -> LinkModel {
        LinkModel { name: encode_utf8(self.name@), target: self.target }
    }
}

/// Whether `a` comes before `b`, byte by byte.
pub open spec fn bytes_less(a: Seq<u8>, b: Seq<u8>) -> bool
    decreases b.len(),
{
    if b.len() == 0 {
        false
    } else if a.len() == 0 {
        true
    } else if a[0] != b[0] {
        a[0] < b[0]
    } else {
        bytes_less(a.skip(1), b.skip(1))
    }
}

fn less(a: &[u8], b: &[u8]) -> (r: bool)
    ensures
        r == bytes_less(a@, b@),
{
    let mut i: usize = 0;
    proof {
        assert(a@.skip(0) =~= a@);
        assert(b@.skip(0) =~= b@);
    }
    while i < a.len() && i < b.len() && a[i] == b[i]
        invariant
            i <= a@.len(),
            i <= b@.len(),
            bytes_less(a@, b@) == bytes_less(a@.skip(i as int), b@.skip(i as int)),
        decreases a@.len() - i,
    {
        proof {
            assert(a@.skip(i as int).skip(1) =~= a@.skip(i + 1));
            assert(b@.skip(i as int).skip(1) =~= b@.skip(i + 1));
        }
        i += 1;
    }
    if i == b.len() {
        false
    } else if i == a.len() {
        true
    } else {
        a[i] < b[i]
    }
}

/// Of any two names one comes first, or they are the same.
pub proof fn lemma_less_total(a: Seq<u8>, b: Seq<u8>)
    ensures
        !bytes_less(a, b) && !bytes_less(b, a) ==> a == b,
        !(bytes_less(a, b) && bytes_less(b, a)),
    decreases a.len(),
{
    if a.len() > 0 && b.len() > 0 && a[0] == b[0] {
        lemma_less_total(a.skip(1), b.skip(1));
        if !bytes_less(a, b) && !bytes_less(b, a) {
            assert(a =~= seq![a[0]] + a.skip(1));
            assert(b =~= seq![b[0]] + b.skip(1));
        }
    } else if a.len() == 0 && b.len() == 0 {
        assert(a =~= b);
    }
}

pub proof fn lemma_less_transitive(a: Seq<u8>, b: Seq<u8>, c: Seq<u8>)
    requires
        bytes_less(a, b),
        bytes_less(b, c),
    ensures
        bytes_less(a, c),
    decreases a.len(),
{
    if a.len() > 0 && a[0] == b[0] && b[0] == c[0] {
        lemma_less_transitive(a.skip(1), b.skip(1), c.skip(1));
    }
}

/// Whether `a` and `b` agree up to `i`, and there `a` ends first or has the smaller byte.
pub open spec fn parts_at(a: Seq<u8>, b: Seq<u8>, i: int) -> bool {
    &&& 0 <= i <= a.len()
    &&& i < b.len()
    &&& forall|k: int| 0 <= k < i ==> #[trigger] a[k] == b[k]
    &&& i == a.len() || a[i] < b[i]
}

/// The order of names is that of a dictionary over bytes.
pub proof fn law_byte_order(a: Seq<u8>, b: Seq<u8>)
    ensures
        bytes_less(a, b) <==> exists|i: int| #[trigger] parts_at(a, b, i),
    decreases b.len(),
{
    if b.len() > 0 && a.len() > 0 && a[0] == b[0] {
        let x = a.skip(1);
        let y = b.skip(1);
        law_byte_order(x, y);
        if exists|i: int| #[trigger] parts_at(x, y, i) {
            let i = choose|i: int| #[trigger] parts_at(x, y, i);
            assert forall|k: int| 0 <= k < i + 1 implies #[trigger] a[k] == b[k] by {
                if k > 0 {
                    assert(x[k - 1] == y[k - 1]);
                }
            }
            assert(parts_at(a, b, i + 1));
        }
        if exists|i: int| #[trigger] parts_at(a, b, i) {
            let i = choose|i: int| #[trigger] parts_at(a, b, i);
            assert forall|k: int| 0 <= k < i - 1 implies #[trigger] x[k] == y[k] by {
                assert(a[k + 1] == b[k + 1]);
            }
            assert(parts_at(x, y, i - 1));
        }
    } else if b.len() > 0 {
        if bytes_less(a, b) {
            assert(parts_at(a, b, 0));
        }
        if exists|i: int| #[trigger] parts_at(a, b, i) {
            let i = choose|i: int| #[trigger] parts_at(a, b, i);
            if i > 0 {
                assert(a[0] == b[0]);
            }
        }
    }
}

/// Where a link of that name goes among sorted links: behind those that do not come
/// after it.
pub open spec fn slot_for(sorted: Seq<LinkModel>, name: Seq<u8>) -> int
    decreases sorted.len(),
{
    if sorted.len() == 0 || !bytes_less(name, sorted.last().name) {
        sorted.len() as int
    } else {
        slot_for(sorted.drop_last(), name)
    }
}

/// The links in order of their names.
pub open spec fn in_order(links: Seq<LinkModel>) -> Seq<LinkModel>
    decreases links.len(),
{
    if links.len() == 0 {
        Seq::empty()
    } else {
        let front = in_order(links.drop_last());
        front.insert(slot_for(front, links.last().name), links.last())
    }
}

/// The links of a group as they were declared: datasets, then sub-groups.
pub open spec fn declared_links(
    datasets: Seq<DatasetDesc>,
    groups: Seq<GroupModel>,
) -> Seq<LinkModel> {
    Seq::new(
        datasets.len(),
        |i: int|
            LinkModel {
                name: encode_utf8(datasets[i].name@),
                target: LinkTarget::Dataset(i as usize),
            },
    ) + Seq::new(
        groups.len(),
        |i: int|
            LinkModel {
                name: encode_utf8(groups[i].name),
                target: LinkTarget::Group(i as usize),
            },
    )
}

/// The links of a group in order of their names.
pub open spec fn links_of(m: GroupModel) -> Seq<LinkModel> {
    in_order(declared_links(m.datasets, m.groups))
}

pub proof fn lemma_slot_bounds(sorted: Seq<LinkModel>, name: Seq<u8>)
    ensures
        0 <= slot_for(sorted, name) <= sorted.len(),
    decreases sorted.len(),
{
    if sorted.len() > 0 {
        lemma_slot_bounds(sorted.drop_last(), name);
    }
}

pub proof fn lemma_in_order_len(links: Seq<LinkModel>)
    ensures
        in_order(links).len() == links.len(),
    decreases links.len(),
{
    if links.len() > 0 {
        lemma_in_order_len(links.drop_last());
        lemma_slot_bounds(in_order(links.drop_last()), links.last().name);
    }
}

/// Ordering keeps every link: each has a place in the order.
pub proof fn law_order_keeps_links(links: Seq<LinkModel>, i: int)
    requires
        0 <= i < links.len(),
    ensures
        exists|j: int| 0 <= j < in_order(links).len() && #[trigger] in_order(links)[j] == links[i],
    decreases links.len(),
{
    lemma_in_order_len(links);
    let front = in_order(links.drop_last());
    lemma_in_order_len(links.drop_last());
    let at = slot_for(front, links.last().name);
    lemma_slot_bounds(front, links.last().name);
    let all = in_order(links);
    if i == links.len() - 1 {
        assert(all[at] == links[i]);
    } else {
        law_order_keeps_links(links.drop_last(), i);
        let j = choose|j: int| 0 <= j < front.len() && #[trigger] front[j] == links[i];
        if j < at {
            assert(all[j] == links[i]);
        } else {
            assert(all[j + 1] == links[i]);
        }
    }
}

/// Ordering adds no link: each in the order is one of the links.
pub proof fn law_order_adds_no_links(links: Seq<LinkModel>, j: int)
    requires
        0 <= j < links.len(),
    ensures
        exists|i: int| 0 <= i < links.len() && #[trigger] links[i] == in_order(links)[j],
    decreases links.len(),
{
    let front = in_order(links.drop_last());
    lemma_in_order_len(links.drop_last());
    let at = slot_for(front, links.last().name);
    lemma_slot_bounds(front, links.last().name);
    let all = in_order(links);
    if j == at {
        assert(links[links.len() - 1] == all[j]);
    } else {
        let k = if j < at {
            j
        } else {
            j - 1
        };
        law_order_adds_no_links(links.drop_last(), k);
        let i = choose|i: int|
            0 <= i < links.drop_last().len() && #[trigger] links.drop_last()[i] == front[k];
        assert(links[i] == all[j]);
    }
}

/// No link comes after one whose name is greater.
pub open spec fn ascending(links: Seq<LinkModel>) -> bool {
    forall|i: int, j: int|
        0 <= i < j < links.len() ==> !bytes_less(
            (#[trigger] links[j]).name,
            (#[trigger] links[i]).name,
        )
}

proof fn lemma_slot_splits(sorted: Seq<LinkModel>, name: Seq<u8>)
    requires
        ascending(sorted),
    ensures
        forall|i: int|
            0 <= i < slot_for(sorted, name) ==> !bytes_less(name, (#[trigger] sorted[i]).name),
        forall|i: int|
            slot_for(sorted, name) <= i < sorted.len() ==> bytes_less(
                name,
                (#[trigger] sorted[i]).name,
            ),
    decreases sorted.len(),
{
    if sorted.len() > 0 {
        let last = sorted.last();
        if bytes_less(name, last.name) {
            let front = sorted.drop_last();
            assert forall|i: int, j: int| 0 <= i < j < front.len() implies !bytes_less(
                (#[trigger] front[j]).name,
                (#[trigger] front[i]).name,
            ) by {
                assert(front[i] == sorted[i] && front[j] == sorted[j]);
            }
            lemma_slot_splits(front, name);
            lemma_slot_bounds(front, name);
            assert forall|i: int| 0 <= i < slot_for(sorted, name) implies !bytes_less(
                name,
                (#[trigger] sorted[i]).name,
            ) by {
                assert(front[i] == sorted[i]);
            }
            assert forall|i: int| slot_for(sorted, name) <= i < sorted.len() implies bytes_less(
                name,
                (#[trigger] sorted[i]).name,
            ) by {
                if i < sorted.len() - 1 {
                    assert(front[i] == sorted[i]);
                }
            }
        } else {
            assert forall|i: int| 0 <= i < sorted.len() implies !bytes_less(
                name,
                (#[trigger] sorted[i]).name,
            ) by {
                if i < sorted.len() - 1 && bytes_less(name, sorted[i].name) {
                    let n = sorted.len() - 1;
                    assert(!bytes_less(sorted[n].name, sorted[i].name));
                    lemma_less_total(sorted[i].name, sorted[n].name);
                    if sorted[i].name != sorted[n].name {
                        lemma_less_transitive(name, sorted[i].name, sorted[n].name);
                    }
                }
            }
        }
    }
}

/// The links of a group are written in ascending order of their names.
pub proof fn law_links_ascend(links: Seq<LinkModel>)
    ensures
        ascending(in_order(links)),
    decreases links.len(),
{
    if links.len() > 0 {
        let front = in_order(links.drop_last());
        let new = links.last();
        law_links_ascend(links.drop_last());
        lemma_slot_bounds(front, new.name);
        lemma_slot_splits(front, new.name);
        let at = slot_for(front, new.name);
        let all = in_order(links);
        assert forall|i: int, j: int| 0 <= i < j < all.len() implies !bytes_less(
            (#[trigger] all[j]).name,
            (#[trigger] all[i]).name,
        ) by {
            if j == at {
                assert(all[i] == front[i]);
            } else if i == at {
                assert(all[j] == front[j - 1]);
                lemma_less_total(new.name, front[j - 1].name);
            } else {
                let x = if i < at {
                    i
                } else {
                    i - 1
                };
                let y = if j < at {
                    j
                } else {
                    j - 1
                };
                assert(all[i] == front[x] && all[j] == front[y]);
            }
        }
    }
}

fn insert_link<'a>(sorted: &mut Vec<Link<'a>>, link: Link<'a>)
    ensures
        views(final(sorted)@) == views(old(sorted)@).insert(
            slot_for(views(old(sorted)@), link@.name),
            link@,
        ),
{
    let ghost all = views(sorted@);
    let name = link.name.as_bytes();
    let mut at: usize = sorted.len();
    proof {
        assert(all.take(at as int) =~= all);
        lemma_slot_bounds(all, link@.name);
    }
    while at > 0 && less(name, sorted[at - 1].name.as_bytes())
        invariant
            name@ == link@.name,
            all == views(sorted@),
            at <= sorted@.len(),
            slot_for(all, link@.name) == slot_for(all.take(at as int), link@.name),
        decreases at,
    {
        proof {
            assert(all.take(at as int).last() == sorted@[at - 1]@);
            assert(all.take(at as int).drop_last() =~= all.take(at - 1));
        }
        at -= 1;
    }
    proof {
        if at > 0 {
            assert(all.take(at as int).last() == sorted@[at - 1]@);
        }
    }
    sorted.insert(at, link);
    proof {
        assert(views(sorted@) =~= all.insert(at as int, link@));
    }
}

/// The links of a group in order of their names.
pub fn sorted_links<'a>(datasets: &'a [DatasetDesc], groups: &'a [GroupNode]) -> (r: Vec<Link<'a>>)
    ensures
        views(r@) == in_order(declared_links(datasets@, views(groups@))),
{
    let ghost all = declared_links(datasets@, views(groups@));
    let mut sorted: Vec<Link<'a>> = Vec::new();
    proof {
        assert(all.take(0) =~= Seq::<LinkModel>::empty());
        assert(views(sorted@) =~= Seq::empty());
    }
    for i in 0..datasets.len()
        invariant
            all == declared_links(datasets@, views(groups@)),
            views(sorted@) == in_order(all.take(i as int)),
    {
        let link = Link { name: datasets[i].name.as_str(), target: LinkTarget::Dataset(i) };
        proof {
            assert(all.take(i + 1).drop_last() =~= all.take(i as int));
            assert(all.take(i + 1).last() == link@);
        }
        insert_link(&mut sorted, link);
    }
    for i in 0..groups.len()
        invariant
            all == declared_links(datasets@, views(groups@)),
            views(sorted@) == in_order(all.take(datasets@.len() + i)),
    {
        let link = Link { name: groups[i].name.as_str(), target: LinkTarget::Group(i) };
        proof {
            let k = datasets@.len() + i;
            lemma_group_model(groups@[i as int]);
            assert(all.take(k + 1).drop_last() =~= all.take(k as int));
            assert(all.take(k + 1).last() == link@);
        }
        insert_link(&mut sorted, link);
    }
    proof {
        assert(all.take((datasets@.len() + groups@.len()) as int) =~= all);
    }
    sorted
}

/// The smallest data segment of a local heap.
pub const MIN_HEAP_DATA_SIZE: usize = 88;

/// The part of a local heap in use: eight zero bytes, then each name with a zero
/// byte, padded to a multiple of 8.
pub open spec fn heap_used(names: Seq<Seq<u8>>) -> Seq<u8>
    decreases names.len(),
{
    if names.len() == 0 {
        zeros(8)
    } else {
        heap_used(names.drop_last()) + padded(names.last().push(0u8))
    }
}

/// Where the name at place `i` starts.
pub open spec fn name_offset(names: Seq<Seq<u8>>, i: int) -> nat {
    heap_used(names.take(i)).len()
}

/// The size of the data segment: room for the names and a free block, and at least
/// the smallest size.
pub open spec fn heap_size(names: Seq<Seq<u8>>) -> nat {
    let n = align8(heap_used(names).len() as int + 16);
    if n < 88 {
        88
    } else {
        n as nat
    }
}

/// The data segment of a local heap: the names, and one free block for the rest,
/// which says that no other follows and how long it is.
pub open spec fn heap_image(names: Seq<Seq<u8>>) -> Seq<u8> {
    let used = heap_used(names);
    let free = (heap_size(names) - used.len()) as nat;
    used + le_bytes(1, 8) + le_bytes(free, 8) + zeros((free - 16) as nat)
}

proof fn lemma_aligned(n: int)
    requires
        n >= 0,
    ensures
        align8(n) % 8 == 0,
        n <= align8(n) < n + 8,
{
}

proof fn lemma_padded_len(part: Seq<u8>)
    ensures
        padded(part).len() % 8 == 0,
        padded(part).len() == align8(part.len() as int),
{
    lemma_aligned(part.len() as int);
}

pub proof fn lemma_heap_lens(names: Seq<Seq<u8>>)
    ensures
        heap_used(names).len() % 8 == 0,
        heap_used(names).len() >= 8,
        heap_size(names) >= heap_used(names).len() + 16,
        heap_size(names) % 8 == 0,
        heap_image(names).len() == heap_size(names),
{
    lemma_used_len(names);
    lemma_aligned(heap_used(names).len() as int + 16);
    lemma_le_bytes_len(1, 8);
    lemma_le_bytes_len((heap_size(names) - heap_used(names).len()) as nat, 8);
}

proof fn lemma_aligned_sum(a: int, b: int)
    requires
        a % 8 == 0,
        b % 8 == 0,
    ensures
        (a + b) % 8 == 0,
{
}

proof fn lemma_used_len(names: Seq<Seq<u8>>)
    ensures
        heap_used(names).len() % 8 == 0,
        heap_used(names).len() >= 8,
    decreases names.len(),
{
    if names.len() > 0 {
        let front = heap_used(names.drop_last());
        let part = names.last().push(0u8);
        lemma_used_len(names.drop_last());
        lemma_padded_len(part);
        assert(heap_used(names).len() == front.len() + padded(part).len());
        lemma_aligned_sum(front.len() as int, padded(part).len() as int);
    }
}

pub proof fn lemma_heap_prefix(names: Seq<Seq<u8>>, i: int)
    requires
        0 <= i <= names.len(),
    ensures
        name_offset(names, i) <= heap_used(names).len(),
        heap_used(names).take(name_offset(names, i) as int) == heap_used(names.take(i)),
        i < names.len() ==> name_offset(names, i + 1) == name_offset(names, i) + padded(
            names[i].push(0u8),
        ).len(),
        i < names.len() ==> heap_used(names).subrange(
            name_offset(names, i) as int,
            name_offset(names, i + 1) as int,
        ) == padded(names[i].push(0u8)),
        i < names.len() ==> name_offset(names, i + 1) <= heap_used(names).len(),
    decreases names.len() - i,
{
    let all = heap_used(names);
    if i < names.len() {
        lemma_heap_prefix(names, i + 1);
        assert(names.take(i + 1).drop_last() =~= names.take(i));
        assert(names.take(i + 1).last() == names[i]);
        let longer = heap_used(names.take(i + 1));
        assert(all.take(longer.len() as int) == longer);
        assert(all.take(name_offset(names, i) as int) =~= longer.take(
            name_offset(names, i) as int,
        ));
        assert(longer.take(name_offset(names, i) as int) =~= heap_used(names.take(i)));
        assert(all.subrange(name_offset(names, i) as int, name_offset(names, i + 1) as int)
            =~= longer.subrange(
            name_offset(names, i) as int,
            name_offset(names, i + 1) as int,
        ));
        assert(longer.subrange(name_offset(names, i) as int, name_offset(names, i + 1) as int)
            =~= padded(names[i].push(0u8)));
    } else {
        assert(names.take(i) =~= names);
        assert(all.take(all.len() as int) =~= all);
    }
}

/// A local heap's data segment with the place of each name in it.
#[derive(Debug)]
pub struct LocalHeap {
    /// Where each name starts, in order.
    pub name_offsets: Vec<u64>,
    /// The data segment.
    pub data: Vec<u8>,
    /// How much of it is in use.
    pub used: usize,
}

/// Build the data segment of a local heap for these names.
pub fn build_local_heap(names: &[&str]) -> (r: LocalHeap)
    requires
        heap_size(encoded_names(names@)) <= usize::MAX,
    ensures
        r.data@ == heap_image(encoded_names(names@)),
        r.used == heap_used(encoded_names(names@)).len(),
        r.name_offsets@.len() == names@.len(),
        forall|i: int|
            0 <= i < names@.len() ==> #[trigger] r.name_offsets@[i] == name_offset(
                encoded_names(names@),
                i,
            ),
{
    let ghost all = encoded_names(names@);
    let mut data: Vec<u8> = Vec::new();
    let mut name_offsets: Vec<u64> = Vec::new();
    push_zeros(&mut data, 8);
    proof {
        lemma_heap_lens(all);
        assert(all.take(0) =~= Seq::<Seq<u8>>::empty());
        assert(data@ =~= zeros(8));
    }
    for i in 0..names.len()
        invariant
            all == encoded_names(names@),
            heap_size(all) <= usize::MAX,
            heap_size(all) >= heap_used(all).len() + 16,
            data@ == heap_used(all.take(i as int)),
            name_offsets@.len() == i,
            forall|k: int| 0 <= k < i ==> #[trigger] name_offsets@[k] == name_offset(all, k),
    {
        let bytes = names[i].as_bytes();
        proof {
            lemma_heap_prefix(all, i as int);
            assert(all.take(i + 1).drop_last() =~= all.take(i as int));
            assert(all.take(i + 1).last() == bytes@);
        }
        name_offsets.push(data.len() as u64);
        let mut part: Vec<u8> = Vec::new();
        push_all(&mut part, bytes);
        part.push(0);
        proof {
            assert(part@ =~= bytes@.push(0u8));
        }
        push_padded(&mut data, &part);
    }
    proof {
        assert(all.take(names@.len() as int) =~= all);
    }
    let used: usize = data.len();
    let wanted: usize = pad8(used + 16);
    let size: usize = if wanted < MIN_HEAP_DATA_SIZE {
        MIN_HEAP_DATA_SIZE
    } else {
        wanted
    };
    push_le(&mut data, 1, 8);
    push_le(&mut data, (size - used) as u64, 8);
    push_zeros(&mut data, size - used - 16);
    LocalHeap { name_offsets, data, used }
}

/// The bytes of each name.
pub open spec fn encoded_names(names: Seq<&str>) -> Seq<Seq<u8>> {
    Seq::new(names.len(), |i: int| encode_utf8(names[i]@))
}

} // verus!
