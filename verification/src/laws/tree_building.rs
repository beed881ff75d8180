//! Trees of groups to be written: what was added is there, and nothing else changed.

use vstd::prelude::*;
use crate::error::{ErrorKind, OxiH5Error};
use crate::write::attr::AttrDesc;
use crate::write::tree::{
    attrs_mut, attrs_of, attrs_replaced, created, dataset_mut, dataset_of, dataset_position,
    empty_group, group_at, group_position, has_name, insertion, insertion_point,
    law_replaced_is_found, lemma_created_found, lemma_created_name, lemma_dataset_position,
    lemma_group_position, lemma_position_update, owner_of, path_names, replaced, walk,
    DatasetDesc, GroupModel, GroupNode, Owner,
};

verus! {

/// A dataset of a new name is found where it was added, and the others where they were.
proof fn lemma_dataset_pushed(datasets: Seq<DatasetDesc>, new: DatasetDesc, name: Seq<char>)
    requires
        dataset_position(datasets, new.name@) is None,
    ensures
        dataset_position(datasets.push(new), new.name@) == Some(datasets.len() as int),
        name != new.name@ ==> dataset_position(datasets.push(new), name) == dataset_position(
            datasets,
            name,
        ),
{
    assert(datasets.push(new).drop_last() =~= datasets);
}

/// A dataset that was added at a path is found at that path.
pub proof fn law_added_dataset_is_found(
    root: &mut GroupNode,
    path: &str,
    what: &str,
    added: Result<(&mut GroupNode, &str), OxiH5Error>,
    ds: DatasetDesc,
    later: &mut GroupNode,
    found: Result<&mut DatasetDesc, OxiH5Error>,
)
    requires
        call_ensures(insertion_point, (root, path, what), added),
        added is Ok,
        ds.name@ == added->Ok_0.1@,
        final(added->Ok_0.0)@ == (GroupModel {
            datasets: old(added->Ok_0.0)@.datasets.push(ds),
            ..old(added->Ok_0.0)@
        }),
        old(later)@ == final(root)@,
        call_ensures(dataset_mut, (later, path), found),
    ensures
        found is Ok,
        *old(found->Ok_0) == ds,
{
    let m = old(root)@;
    let (above, name) = insertion(m, path@)->Ok_0;
    let parent = group_at(created(m, above), above);
    let new = final(added->Ok_0.0)@;
    law_replaced_is_found(m, above, new);
    lemma_dataset_pushed(parent.datasets, ds, name);
    assert(dataset_of(old(later)@, path@) == Ok::<(Seq<Seq<char>>, int), ErrorKind>(
        (above, parent.datasets.len() as int),
    ));
}

/// To make the groups along some names, and to change one of them but for its groups,
/// changes no other group.
proof fn lemma_others_stay(
    m: GroupModel,
    names: Seq<Seq<char>>,
    new: GroupModel,
    other: Seq<Seq<char>>,
)
    requires
        walk(m, names, true) is Ok,
        walk(m, other, false) is Ok,
        new.name == group_at(created(m, names), names).name,
        new.groups == group_at(created(m, names), names).groups,
    ensures
        walk(replaced(created(m, names), names, new), other, false) is Ok,
        group_at(replaced(created(m, names), names, new), other).datasets == if other == names {
            new.datasets
        } else {
            group_at(m, other).datasets
        },
        other == names ==> group_at(created(m, names), names).datasets == group_at(
            m,
            other,
        ).datasets,
    decreases names.len(),
{
    if names.len() == 0 {
        if other.len() == 0 {
            assert(other =~= names);
        }
    } else {
        let tree = created(m, names);
        let rest = names.skip(1);
        lemma_created_found(m, names);
        lemma_group_position(m.groups, names[0], 0);
        let child = match group_position(m.groups, names[0]) {
            Some(i) => m.groups[i],
            None => empty_group(names[0]),
        };
        let i = group_position(tree.groups, names[0])->0;
        lemma_group_position(tree.groups, names[0], 0);
        lemma_created_name(child, rest);
        law_replaced_is_found(child, rest, new);
        let changed = replaced(created(child, rest), rest, new);
        if rest.len() == 0 {
            assert(changed == new);
            assert(group_at(created(child, rest), rest) == created(child, rest));
        }
        let after = replaced(tree, names, new);
        assert(after.groups == tree.groups.update(i, changed));
        if other.len() == 0 {
            assert(other != names);
            assert(group_at(after, other) == after);
        } else {
            lemma_position_update(tree.groups, i, changed, other[0]);
            lemma_group_position(m.groups, other[0], 0);
            let j = group_position(m.groups, other[0])->0;
            lemma_tree_position(m, names, other[0]);
            if other[0] == names[0] {
                lemma_others_stay(child, rest, new, other.skip(1));
                if rest == other.skip(1) {
                    assert(names =~= seq![names[0]] + rest);
                    assert(other =~= seq![other[0]] + other.skip(1));
                }
            } else {
                assert(other != names);
                assert(i != j);
                assert(after.groups[j] == m.groups[j]);
            }
        }
    }
}

/// Groups that are there keep their places when others are made.
proof fn lemma_tree_position(m: GroupModel, names: Seq<Seq<char>>, name: Seq<char>)
    requires
        names.len() > 0,
        walk(m, names, true) is Ok,
        group_position(m.groups, name) is Some,
    ensures
        group_position(created(m, names).groups, name) == group_position(m.groups, name),
        name != names[0] ==> created(m, names).groups[group_position(m.groups, name)->0]
            == m.groups[group_position(m.groups, name)->0],
{
    lemma_group_position(m.groups, name, 0);
    lemma_group_position(m.groups, names[0], 0);
    match group_position(m.groups, names[0]) {
        Some(i) => {
            let new = created(m.groups[i], names.skip(1));
            lemma_created_name(m.groups[i], names.skip(1));
            lemma_position_update(m.groups, i, new, name);
        },
        None => {
            let new = created(empty_group(names[0]), names.skip(1));
            let all = m.groups.push(new);
            lemma_group_position(all, name, m.groups.len() as int);
            assert(all.take(m.groups.len() as int) =~= m.groups);
        },
    }
}

/// A dataset that was there before another was added is there after, unchanged.
pub proof fn law_adding_keeps_other_datasets(
    root: &mut GroupNode,
    path: &str,
    what: &str,
    added: Result<(&mut GroupNode, &str), OxiH5Error>,
    ds: DatasetDesc,
    other: &str,
    before: &mut GroupNode,
    was: Result<&mut DatasetDesc, OxiH5Error>,
    later: &mut GroupNode,
    found: Result<&mut DatasetDesc, OxiH5Error>,
)
    requires
        call_ensures(insertion_point, (root, path, what), added),
        added is Ok,
        ds.name@ == added->Ok_0.1@,
        final(added->Ok_0.0)@ == (GroupModel {
            datasets: old(added->Ok_0.0)@.datasets.push(ds),
            ..old(added->Ok_0.0)@
        }),
        old(before)@ == old(root)@,
        call_ensures(dataset_mut, (before, other), was),
        was is Ok,
        old(later)@ == final(root)@,
        call_ensures(dataset_mut, (later, other), found),
    ensures
        found is Ok,
        *old(found->Ok_0) == *old(was->Ok_0),
{
    let m = old(root)@;
    let (above, name) = insertion(m, path@)->Ok_0;
    let parent = group_at(created(m, above), above);
    let new = final(added->Ok_0.0)@;
    let (there, i) = dataset_of(m, other@)->Ok_0;
    let after = old(later)@;
    let last = path_names(other@)->Ok_0.last();
    lemma_others_stay(m, above, new, there);
    lemma_dataset_position(group_at(m, there).datasets, last, 0);
    if there == above {
        assert(last != ds.name@);
        lemma_dataset_pushed(parent.datasets, ds, last);
    }
    assert(dataset_of(after, other@) == Ok::<(Seq<Seq<char>>, int), ErrorKind>((there, i)));
}

/// A name that is taken cannot be added again: where a path leads to a dataset, no new
/// object is made there.
pub proof fn law_taken_path_is_refused(
    root: &mut GroupNode,
    path: &str,
    what: &str,
    before: &mut GroupNode,
    was: Result<&mut DatasetDesc, OxiH5Error>,
    added: Result<(&mut GroupNode, &str), OxiH5Error>,
)
    requires
        old(before)@ == old(root)@,
        call_ensures(dataset_mut, (before, path), was),
        was is Ok,
        call_ensures(insertion_point, (root, path, what), added),
    ensures
        added is Err,
        added->Err_0@ == ErrorKind::Format,
{
    let m = old(root)@;
    let (above, i) = dataset_of(m, path@)->Ok_0;
    let last = path_names(path@)->Ok_0.last();
    lemma_walk_creates(m, above);
    lemma_others_stay(m, above, group_at(created(m, above), above), above);
    assert(has_name(group_at(created(m, above), above), last));
}

proof fn lemma_walk_creates(m: GroupModel, names: Seq<Seq<char>>)
    requires
        walk(m, names, false) is Ok,
    ensures
        walk(m, names, true) is Ok,
    decreases names.len(),
{
    if names.len() > 0 {
        lemma_group_position(m.groups, names[0], 0);
        let i = group_position(m.groups, names[0])->0;
        lemma_walk_creates(m.groups[i], names.skip(1));
    }
}

/// Nothing is made where all groups along the names are there.
proof fn lemma_nothing_created(m: GroupModel, names: Seq<Seq<char>>)
    requires
        walk(m, names, false) is Ok,
    ensures
        created(m, names) == m,
    decreases names.len(),
{
    if names.len() > 0 {
        lemma_group_position(m.groups, names[0], 0);
        let i = group_position(m.groups, names[0])->0;
        lemma_nothing_created(m.groups[i], names.skip(1));
        assert(m.groups.update(i, m.groups[i]) =~= m.groups);
    }
}

/// Another dataset of the same name takes the same place.
proof fn lemma_dataset_updated(
    datasets: Seq<DatasetDesc>,
    i: int,
    new: DatasetDesc,
    name: Seq<char>,
)
    requires
        0 <= i < datasets.len(),
        new.name@ == datasets[i].name@,
    ensures
        dataset_position(datasets.update(i, new), name) == dataset_position(datasets, name),
    decreases datasets.len(),
{
    let changed = datasets.update(i, new);
    if i < datasets.len() - 1 {
        assert(changed.drop_last() =~= datasets.drop_last().update(i, new));
        lemma_dataset_updated(datasets.drop_last(), i, new, name);
    } else {
        assert(changed.drop_last() =~= datasets.drop_last());
    }
}

/// The attributes that were given to the object at a path are found at that path.
pub proof fn law_given_attributes_are_found(
    root: &mut GroupNode,
    path: &str,
    given: Result<&mut Vec<AttrDesc>, OxiH5Error>,
    later: &mut GroupNode,
    found: Result<&mut Vec<AttrDesc>, OxiH5Error>,
)
    requires
        call_ensures(attrs_mut, (root, path), given),
        given is Ok,
        old(later)@ == final(root)@,
        call_ensures(attrs_mut, (later, path), found),
    ensures
        found is Ok,
        old(found->Ok_0)@ == final(given->Ok_0)@,
{
    let m = old(root)@;
    let (above, owner) = owner_of(m, path@)->Ok_0;
    let parent = group_at(m, above);
    let attrs = final(given->Ok_0)@;
    let new = choose|new: GroupModel|
        {
            &&& final(root)@ == #[trigger] replaced(m, above, new)
            &&& attrs_replaced(parent, new, owner, attrs)
        };
    let names = path_names(path@)->Ok_0;
    if names.len() == 0 {
        assert(above.len() == 0);
    } else {
        lemma_walk_creates(m, above);
        lemma_nothing_created(m, above);
        law_replaced_is_found(m, above, new);
        let last = names.last();
        lemma_dataset_position(parent.datasets, last, 0);
        lemma_group_position(parent.groups, last, 0);
        match owner {
            Owner::Dataset(i) => {
                lemma_dataset_updated(parent.datasets, i, new.datasets[i], last);
            },
            Owner::Group(i) => {
                lemma_position_update(parent.groups, i, new.groups[i], last);
            },
            Owner::Root => {},
        }
    }
    assert(owner_of(old(later)@, path@) == Ok::<(Seq<Seq<char>>, Owner), ErrorKind>(
        (above, owner),
    ));
    assert(attrs_of(group_at(old(later)@, above), owner) == attrs);
}

/// To give attributes to the object at a path leaves the elements of the dataset there as
/// they are, and their shape, type, storage and filter.
pub proof fn law_attributes_leave_elements(
    root: &mut GroupNode,
    path: &str,
    given: Result<&mut Vec<AttrDesc>, OxiH5Error>,
    before: &mut GroupNode,
    was: Result<&mut DatasetDesc, OxiH5Error>,
    later: &mut GroupNode,
    found: Result<&mut DatasetDesc, OxiH5Error>,
)
    requires
        call_ensures(attrs_mut, (root, path), given),
        given is Ok,
        old(before)@ == old(root)@,
        call_ensures(dataset_mut, (before, path), was),
        was is Ok,
        old(later)@ == final(root)@,
        call_ensures(dataset_mut, (later, path), found),
    ensures
        found is Ok,
        ({
            let a = *old(was->Ok_0);
            let b = *old(found->Ok_0);
            &&& b.name == a.name
            &&& b.raw == a.raw
            &&& b.shape == a.shape
            &&& b.elem_type == a.elem_type
            &&& b.storage == a.storage
            &&& b.filter == a.filter
            &&& b.vlen_strings == a.vlen_strings
            &&& b.attrs@ == final(given->Ok_0)@
        }),
{
    let m = old(root)@;
    let (above, owner) = owner_of(m, path@)->Ok_0;
    let parent = group_at(m, above);
    let attrs = final(given->Ok_0)@;
    let new = choose|new: GroupModel|
        {
            &&& final(root)@ == #[trigger] replaced(m, above, new)
            &&& attrs_replaced(parent, new, owner, attrs)
        };
    let names = path_names(path@)->Ok_0;
    let last = names.last();
    let i = dataset_of(m, path@)->Ok_0.1;
    assert(owner == Owner::Dataset(i));
    lemma_walk_creates(m, above);
    lemma_nothing_created(m, above);
    law_replaced_is_found(m, above, new);
    lemma_dataset_position(parent.datasets, last, 0);
    lemma_dataset_updated(parent.datasets, i, new.datasets[i], last);
    assert(dataset_of(old(later)@, path@) == Ok::<(Seq<Seq<char>>, int), ErrorKind>((above, i)));
}

} // verus!
