//! References to objects by their paths lead to the objects.

use vstd::prelude::*;
use crate::roundtrip::file::group_below;
use crate::roundtrip::table::distinct;
use crate::write::emit::file_addresses;
use crate::write::layout::{dataset_place, group_place};
use crate::write::links::declared_links;
use crate::write::plan::{child_path, with_addresses, with_datasets, with_groups};
use crate::write::tree::{group_position, lemma_group_position, GroupModel};

verus! {

/// Whether a name is not empty and has no slash.
pub open spec fn simple(name: Seq<char>) -> bool {
    name.len() > 0 && forall|i: int| 0 <= i < name.len() ==> #[trigger] name[i] != '/'
}

/// Whether a group and every group in it has members with simple names, each its own.
pub open spec fn simply_named(m: GroupModel) -> bool
    decreases m, m.groups.len() + 1,
{
    &&& forall|i: int| 0 <= i < m.datasets.len() ==> simple((#[trigger] m.datasets[i]).name@)
    &&& forall|i: int| 0 <= i < m.groups.len() ==> simple((#[trigger] m.groups[i]).name)
    &&& distinct(declared_links(m.datasets, m.groups))
    &&& all_simply_named(m.groups, m.groups.len())
}

/// Whether the first `n` groups are simply named.
pub open spec fn all_simply_named(groups: Seq<GroupModel>, n: nat) -> bool
    decreases groups, n,
{
    n == 0 || n > groups.len() || (all_simply_named(groups, (n - 1) as nat) && simply_named(
        groups[n - 1],
    ))
}

proof fn lemma_one_simply_named(groups: Seq<GroupModel>, n: nat, j: int)
    requires
        0 <= j < n <= groups.len(),
        all_simply_named(groups, n),
    ensures
        simply_named(groups[j]),
    decreases n,
{
    if j < n - 1 {
        lemma_one_simply_named(groups, (n - 1) as nat, j);
    }
}

/// Whether `q` is the path of the object at `path` or of something in it.
pub open spec fn under(q: Seq<char>, path: Seq<char>) -> bool {
    &&& q.len() >= path.len()
    &&& q.take(path.len() as int) == path
    &&& q.len() > path.len() ==> q[path.len() as int] == '/'
}

/// What is under a member of a group is under the group.
proof fn lemma_under_child(q: Seq<char>, prefix: Seq<char>, name: Seq<char>)
    requires
        prefix.len() > 0,
        under(q, child_path(prefix, name)),
    ensures
        under(q, prefix),
{
    let child = child_path(prefix, name);
    assert(child.take(prefix.len() as int) =~= prefix);
    assert(q.take(prefix.len() as int) =~= q.take(child.len() as int).take(prefix.len() as int));
    assert(q[prefix.len() as int] == q.take(child.len() as int)[prefix.len() as int]);
    assert(child[prefix.len() as int] == '/');
}

/// The part of a path before a member's name.
pub open spec fn stem(prefix: Seq<char>) -> Seq<char> {
    if prefix.len() == 0 {
        prefix
    } else {
        prefix + seq!['/']
    }
}

/// What is under a member is not under a member of another name.
proof fn lemma_under_one(q: Seq<char>, prefix: Seq<char>, a: Seq<char>, b: Seq<char>)
    requires
        simple(a),
        simple(b),
        under(q, child_path(prefix, a)),
        under(q, child_path(prefix, b)),
    ensures
        a == b,
{
    let s = stem(prefix);
    let n = s.len() as int;
    assert(child_path(prefix, a) =~= s + a);
    assert(child_path(prefix, b) =~= s + b);
    assert forall|i: int| 0 <= i < a.len() implies q[n + i] == #[trigger] a[i] by {
        assert(q.take(n + a.len())[n + i] == (s + a)[n + i]);
    }
    assert forall|i: int| 0 <= i < b.len() implies q[n + i] == #[trigger] b[i] by {
        assert(q.take(n + b.len())[n + i] == (s + b)[n + i]);
    }
    if a.len() < b.len() {
        let k = a.len() as int;
        assert(q[n + k] == b[k]);
        assert(b[k] != '/');
    } else if b.len() < a.len() {
        let k = b.len() as int;
        assert(q[n + k] == a[k]);
        assert(a[k] != '/');
    } else {
        assert(a =~= b) by {
            assert forall|i: int| 0 <= i < a.len() implies #[trigger] a[i] == b[i] by {
                assert(q[n + i] == b[i]);
            }
        }
    }
}

proof fn lemma_under_self(path: Seq<char>)
    ensures
        under(path, path),
{
    assert(path.take(path.len() as int) =~= path);
}

/// Whether two maps agree on a path.
pub open spec fn agree(a: Map<Seq<char>, u64>, b: Map<Seq<char>, u64>, q: Seq<char>) -> bool {
    a.contains_key(q) == b.contains_key(q) && (a.contains_key(q) ==> a[q] == b[q])
}

proof fn lemma_datasets_frame(
    map: Map<Seq<char>, u64>,
    m: GroupModel,
    at: nat,
    prefix: Seq<char>,
    n: nat,
    q: Seq<char>,
)
    requires
        n <= m.datasets.len(),
        forall|i: int|
            0 <= i < n ==> q != child_path(prefix, (#[trigger] m.datasets[i]).name@),
    ensures
        agree(with_datasets(map, m, at, prefix, n), map, q),
    decreases n,
{
    if n > 0 {
        lemma_datasets_frame(map, m, at, prefix, (n - 1) as nat, q);
        assert(q != child_path(prefix, m.datasets[n - 1].name@));
    }
}

/// The addresses of a group do not touch what is not under it.
proof fn lemma_addresses_frame(
    map: Map<Seq<char>, u64>,
    m: GroupModel,
    at: nat,
    prefix: Seq<char>,
    q: Seq<char>,
)
    requires
        prefix.len() > 0,
        !under(q, prefix),
    ensures
        agree(with_addresses(map, m, at, prefix), map, q),
    decreases m, m.groups.len() + 1,
{
    lemma_under_self(prefix);
    assert forall|i: int| 0 <= i < m.datasets.len() implies q != child_path(
        prefix,
        (#[trigger] m.datasets[i]).name@,
    ) by {
        let child = child_path(prefix, m.datasets[i].name@);
        if q == child {
            lemma_under_self(child);
            lemma_under_child(q, prefix, m.datasets[i].name@);
        }
    }
    let one = map.insert(prefix, at as u64);
    lemma_datasets_frame(one, m, at, prefix, m.datasets.len(), q);
    let two = with_datasets(one, m, at, prefix, m.datasets.len());
    lemma_groups_frame(two, m, at, prefix, m.groups.len(), q);
}

proof fn lemma_groups_frame(
    map: Map<Seq<char>, u64>,
    m: GroupModel,
    at: nat,
    prefix: Seq<char>,
    n: nat,
    q: Seq<char>,
)
    requires
        prefix.len() > 0,
        !under(q, prefix),
        n <= m.groups.len(),
    ensures
        agree(with_groups(map, m, at, prefix, n), map, q),
    decreases m, n,
{
    if n > 0 {
        lemma_groups_frame(map, m, at, prefix, (n - 1) as nat, q);
        let name = m.groups[n - 1].name;
        let child = child_path(prefix, name);
        if under(q, child) {
            lemma_under_child(q, prefix, name);
        }
        lemma_addresses_frame(
            with_groups(map, m, at, prefix, (n - 1) as nat),
            m.groups[n - 1],
            group_place(m, at, n - 1),
            child,
            q,
        );
    }
}

/// Sub-groups do not touch what is under none of them.
proof fn lemma_siblings_frame(
    map: Map<Seq<char>, u64>,
    m: GroupModel,
    at: nat,
    prefix: Seq<char>,
    from: nat,
    n: nat,
    q: Seq<char>,
)
    requires
        from <= n <= m.groups.len(),
        forall|k: int| 0 <= k < m.groups.len() ==> (#[trigger] m.groups[k]).name.len() > 0,
        forall|k: int|
            from <= k < n ==> !under(q, child_path(prefix, (#[trigger] m.groups[k]).name)),
    ensures
        agree(
            with_groups(map, m, at, prefix, n),
            with_groups(map, m, at, prefix, from),
            q,
        ),
    decreases n,
{
    if from < n {
        lemma_siblings_frame(map, m, at, prefix, from, (n - 1) as nat, q);
        let name = m.groups[n - 1].name;
        assert(!under(q, child_path(prefix, name)));
        lemma_addresses_frame(
            with_groups(map, m, at, prefix, (n - 1) as nat),
            m.groups[n - 1],
            group_place(m, at, n - 1),
            child_path(prefix, name),
            q,
        );
    }
}

/// Members of a simply named group have different names.
proof fn lemma_names_differ(m: GroupModel, i: int, j: int)
    requires
        simply_named(m),
        0 <= i < j < m.datasets.len() + m.groups.len(),
    ensures
        member_name(m, i) != member_name(m, j),
{
    let links = declared_links(m.datasets, m.groups);
    assert(links[i].name != links[j].name);
}

/// The name of a member, datasets before sub-groups.
pub open spec fn member_name(m: GroupModel, i: int) -> Seq<char> {
    if i < m.datasets.len() {
        m.datasets[i].name@
    } else {
        m.groups[i - m.datasets.len()].name
    }
}

/// A dataset's path has the dataset's address.
proof fn lemma_dataset_address(
    map: Map<Seq<char>, u64>,
    m: GroupModel,
    at: nat,
    prefix: Seq<char>,
    i: int,
)
    requires
        simply_named(m),
        0 <= i < m.datasets.len(),
    ensures
        ({
            let all = with_addresses(map, m, at, prefix);
            let q = child_path(prefix, m.datasets[i].name@);
            all.contains_key(q) && all[q] == dataset_place(m, at, i) as u64
        }),
{
    let q = child_path(prefix, m.datasets[i].name@);
    let one = map.insert(prefix, at as u64);
    lemma_dataset_among(one, m, at, prefix, m.datasets.len(), i);
    let two = with_datasets(one, m, at, prefix, m.datasets.len());
    lemma_under_self(q);
    assert forall|k: int| 0 <= k < m.groups.len() implies !under(
        q,
        child_path(prefix, (#[trigger] m.groups[k]).name),
    ) by {
        if under(q, child_path(prefix, m.groups[k].name)) {
            lemma_under_one(q, prefix, m.datasets[i].name@, m.groups[k].name);
            lemma_names_differ(m, i, m.datasets.len() + k);
        }
    }
    lemma_siblings_frame(two, m, at, prefix, 0, m.groups.len(), q);
    assert(with_groups(two, m, at, prefix, 0) == two);
}

proof fn lemma_dataset_among(
    map: Map<Seq<char>, u64>,
    m: GroupModel,
    at: nat,
    prefix: Seq<char>,
    n: nat,
    i: int,
)
    requires
        simply_named(m),
        0 <= i < n <= m.datasets.len(),
    ensures
        ({
            let all = with_datasets(map, m, at, prefix, n);
            let q = child_path(prefix, m.datasets[i].name@);
            all.contains_key(q) && all[q] == dataset_place(m, at, i) as u64
        }),
    decreases n,
{
    if i < n - 1 {
        lemma_dataset_among(map, m, at, prefix, (n - 1) as nat, i);
        let a = m.datasets[i].name@;
        let b = m.datasets[n - 1].name@;
        if child_path(prefix, a) == child_path(prefix, b) {
            lemma_under_self(child_path(prefix, a));
            lemma_under_one(child_path(prefix, a), prefix, a, b);
            lemma_names_differ(m, i, n - 1);
        }
    }
}

/// The path that names lead along.
pub open spec fn path_of(prefix: Seq<char>, names: Seq<Seq<char>>) -> Seq<char>
    decreases names.len(),
{
    if names.len() == 0 {
        prefix
    } else {
        path_of(child_path(prefix, names[0]), names.skip(1))
    }
}

proof fn lemma_path_under(prefix: Seq<char>, names: Seq<Seq<char>>, last: Seq<char>)
    requires
        prefix.len() > 0,
    ensures
        under(child_path(path_of(prefix, names), last), prefix),
        path_of(prefix, names).len() > 0,
        under(path_of(prefix, names), prefix),
    decreases names.len(),
{
    let child = child_path(prefix, last);
    if names.len() == 0 {
        lemma_under_self(child);
        lemma_under_child(child, prefix, last);
        lemma_under_self(prefix);
    } else {
        let next = child_path(prefix, names[0]);
        lemma_path_under(next, names.skip(1), last);
        lemma_under_child(
            child_path(path_of(prefix, names), last),
            prefix,
            names[0],
        );
        lemma_under_child(path_of(prefix, names), prefix, names[0]);
    }
}

/// The addresses recorded for a group hold those recorded for a group in it.
proof fn lemma_below_address(
    map: Map<Seq<char>, u64>,
    m: GroupModel,
    at: nat,
    prefix: Seq<char>,
    names: Seq<Seq<char>>,
    i: int,
)
    requires
        simply_named(m),
        group_below(m, at, names) is Some,
        ({
            let (found, _) = group_below(m, at, names)->0;
            0 <= i < found.datasets.len()
        }),
    ensures
        ({
            let (found, place) = group_below(m, at, names)->0;
            let all = with_addresses(map, m, at, prefix);
            let q = child_path(path_of(prefix, names), found.datasets[i].name@);
            all.contains_key(q) && all[q] == dataset_place(found, place, i) as u64
        }),
    decreases names.len(),
{
    if names.len() == 0 {
        lemma_dataset_address(map, m, at, prefix, i);
    } else {
        let k = group_position(m.groups, names[0])->0;
        lemma_group_position(m.groups, names[0], 0);
        let inner = m.groups[k];
        let place = group_place(m, at, k);
        let (found, _) = group_below(m, at, names)->0;
        let next = child_path(prefix, names[0]);
        let q = child_path(path_of(prefix, names), found.datasets[i].name@);
        let one = map.insert(prefix, at as u64);
        let two = with_datasets(one, m, at, prefix, m.datasets.len());
        let three = with_groups(two, m, at, prefix, k as nat);
        lemma_one_simply_named(m.groups, m.groups.len(), k);
        assert(simple(m.groups[k].name));
        lemma_below_address(three, inner, place, next, names.skip(1), i);
        lemma_path_under(next, names.skip(1), found.datasets[i].name@);
        assert forall|j: int| k + 1 <= j < m.groups.len() implies !under(
            q,
            child_path(prefix, (#[trigger] m.groups[j]).name),
        ) by {
            if under(q, child_path(prefix, m.groups[j].name)) {
                assert(simple(m.groups[j].name));
                lemma_under_one(q, prefix, m.groups[k].name, m.groups[j].name);
                lemma_names_differ(m, m.datasets.len() + k, m.datasets.len() + j);
            }
        }
        assert forall|j: int| 0 <= j < m.groups.len() implies (
        #[trigger] m.groups[j]).name.len() > 0 by {
            assert(simple(m.groups[j].name));
        }
        lemma_siblings_frame(two, m, at, prefix, (k + 1) as nat, m.groups.len(), q);
        assert(with_groups(two, m, at, prefix, (k + 1) as nat) == with_addresses(
            three,
            inner,
            place,
            next,
        ));
    }
}

/// A reference to a dataset by its path is written as the address at which that
/// dataset's header is placed.
pub proof fn law_reference_leads_to_dataset(
    root: GroupModel,
    names: Seq<Seq<char>>,
    m: GroupModel,
    at: nat,
    i: int,
)
    requires
        simply_named(root),
        group_below(root, 96, names) == Some((m, at)),
        0 <= i < m.datasets.len(),
    ensures
        ({
            let path = child_path(path_of(Seq::empty(), names), m.datasets[i].name@);
            &&& file_addresses(root).contains_key(path)
            &&& file_addresses(root)[path] == dataset_place(m, at, i) as u64
        }),
{
    lemma_below_address(Map::empty(), root, 96, Seq::empty(), names, i);
}

/// A group's path has the group's address.
proof fn lemma_own_address(map: Map<Seq<char>, u64>, m: GroupModel, at: nat, prefix: Seq<char>)
    requires
        simply_named(m),
    ensures
        with_addresses(map, m, at, prefix).contains_key(prefix),
        with_addresses(map, m, at, prefix)[prefix] == at as u64,
{
    let one = map.insert(prefix, at as u64);
    assert forall|i: int| 0 <= i < m.datasets.len() implies prefix != child_path(
        prefix,
        (#[trigger] m.datasets[i]).name@,
    ) by {
        assert(simple(m.datasets[i].name@));
        assert(child_path(prefix, m.datasets[i].name@).len() > prefix.len());
    }
    lemma_datasets_frame(one, m, at, prefix, m.datasets.len(), prefix);
    let two = with_datasets(one, m, at, prefix, m.datasets.len());
    assert forall|k: int| 0 <= k < m.groups.len() implies !under(
        prefix,
        child_path(prefix, (#[trigger] m.groups[k]).name),
    ) by {
        assert(simple(m.groups[k].name));
        assert(child_path(prefix, m.groups[k].name).len() > prefix.len());
    }
    assert forall|j: int| 0 <= j < m.groups.len() implies (#[trigger] m.groups[j]).name.len()
        > 0 by {
        assert(simple(m.groups[j].name));
    }
    lemma_siblings_frame(two, m, at, prefix, 0, m.groups.len(), prefix);
    assert(with_groups(two, m, at, prefix, 0) == two);
}

proof fn lemma_below_group_address(
    map: Map<Seq<char>, u64>,
    m: GroupModel,
    at: nat,
    prefix: Seq<char>,
    names: Seq<Seq<char>>,
)
    requires
        simply_named(m),
        group_below(m, at, names) is Some,
    ensures
        ({
            let (_, place) = group_below(m, at, names)->0;
            let all = with_addresses(map, m, at, prefix);
            let q = path_of(prefix, names);
            all.contains_key(q) && all[q] == place as u64
        }),
    decreases names.len(),
{
    if names.len() == 0 {
        lemma_own_address(map, m, at, prefix);
    } else {
        let k = group_position(m.groups, names[0])->0;
        lemma_group_position(m.groups, names[0], 0);
        let inner = m.groups[k];
        let place = group_place(m, at, k);
        let next = child_path(prefix, names[0]);
        let q = path_of(prefix, names);
        let one = map.insert(prefix, at as u64);
        let two = with_datasets(one, m, at, prefix, m.datasets.len());
        let three = with_groups(two, m, at, prefix, k as nat);
        lemma_one_simply_named(m.groups, m.groups.len(), k);
        assert(simple(m.groups[k].name));
        lemma_below_group_address(three, inner, place, next, names.skip(1));
        lemma_path_under(next, names.skip(1), Seq::empty());
        assert forall|j: int| k + 1 <= j < m.groups.len() implies !under(
            q,
            child_path(prefix, (#[trigger] m.groups[j]).name),
        ) by {
            if under(q, child_path(prefix, m.groups[j].name)) {
                assert(simple(m.groups[j].name));
                lemma_under_one(q, prefix, m.groups[k].name, m.groups[j].name);
                lemma_names_differ(m, m.datasets.len() + k, m.datasets.len() + j);
            }
        }
        assert forall|j: int| 0 <= j < m.groups.len() implies (
        #[trigger] m.groups[j]).name.len() > 0 by {
            assert(simple(m.groups[j].name));
        }
        lemma_siblings_frame(two, m, at, prefix, (k + 1) as nat, m.groups.len(), q);
        assert(with_groups(two, m, at, prefix, (k + 1) as nat) == with_addresses(
            three,
            inner,
            place,
            next,
        ));
    }
}

/// A reference to a group by its path is written as the address at which that group's
/// header is placed; the root group has the empty path.
pub proof fn law_reference_leads_to_group(
    root: GroupModel,
    names: Seq<Seq<char>>,
    m: GroupModel,
    at: nat,
)
    requires
        simply_named(root),
        group_below(root, 96, names) == Some((m, at)),
    ensures
        file_addresses(root).contains_key(path_of(Seq::empty(), names)),
        file_addresses(root)[path_of(Seq::empty(), names)] == at as u64,
{
    lemma_below_group_address(Map::empty(), root, 96, Seq::empty(), names);
}

} // verus!
