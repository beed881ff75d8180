//! The writer's objects: a tree of groups, and the paths that lead through it.

use vstd::prelude::*;
use vstd::string::StrSliceExecFns;
use crate::dtype::views;
use crate::error::{text, text_around, ErrorKind, OxiH5Error};
use crate::paths::{parts_of, split_parts, strip_slash, without_slash};
use crate::utf8::same_text;
use crate::write::attr::AttrDesc;
use crate::write::elem::ElemType;

verus! {

/// The deepest path that is accepted, in names.
pub const MAX_PATH_DEPTH: usize = 64;

/// How the elements of a dataset are stored.
#[derive(Debug)]
pub enum Storage {
    /// In one run of bytes.
    Contiguous,
    /// In chunks; `unlimited_dim0` lets the first dimension grow without bound.
    Chunked { chunk_shape: Vec<usize>, unlimited_dim0: bool },
}

/// A filter for the chunks of a dataset.
#[derive(Debug, Clone, Copy)]
pub enum Filter {
    Deflate { level: u8 },
}

/// A dataset to be written.
#[derive(Debug)]
pub struct DatasetDesc {
    /// Its name in its group: not empty, without slashes.
    pub name: String,
    /// Its elements as bytes; empty for variable-length strings.
    pub raw: Vec<u8>,
    pub shape: Vec<usize>,
    pub elem_type: ElemType,
    pub attrs: Vec<AttrDesc>,
    pub storage: Storage,
    pub filter: Option<Filter>,
    /// The strings of a dataset of variable-length strings.
    pub vlen_strings: Option<Vec<String>>,
}

impl DatasetDesc {
    /// The number of bytes of the elements.
    pub open spec fn data_size(self) -> nat {
        match self.vlen_strings {
            Some(strings) => strings@.len() * 16,
            None => self.raw@.len(),
        }
    }

    /// The number of bytes of the elements.
    pub fn data_len(&self) -> (r: usize)
        requires
            self.data_size() <= usize::MAX,
        ensures
            r == self.data_size(),
    {
        match &self.vlen_strings {
            Some(strings) => strings.len() * 16,
            None => self.raw.len(),
        }
    }

    /// The chunk shape, and whether the first dimension may grow, of a chunked
    /// dataset.
    pub fn chunked(&self) -> (r: Option<(&[usize], bool)>)
        ensures
            match (r, self.storage) {
                (Some((shape, grows)), Storage::Chunked { chunk_shape, unlimited_dim0 }) => shape@
                    == chunk_shape@ && grows == unlimited_dim0,
                (None, Storage::Contiguous) => true,
                _ => false,
            },
    {
        match &self.storage {
            Storage::Contiguous => None,
            Storage::Chunked { chunk_shape, unlimited_dim0 } => Some(
                (chunk_shape.as_slice(), *unlimited_dim0),
            ),
        }
    }

    /// Whether the first dimension may grow without bound.
    pub open spec fn grows(self) -> bool {
        match self.storage {
            Storage::Chunked { unlimited_dim0, .. } => unlimited_dim0,
            _ => false,
        }
    }

    /// Whether the first dimension may grow without bound.
    pub fn unlimited_dim0(&self) -> (r: bool)
        ensures
            r == self.grows(),
    {
        match &self.storage {
            Storage::Chunked { unlimited_dim0, .. } => *unlimited_dim0,
            _ => false,
        }
    }
}

/// A group to be written; the root group has the empty name.
#[derive(Debug)]
pub struct GroupNode {
    pub name: String,
    pub datasets: Vec<DatasetDesc>,
    pub groups: Vec<GroupNode>,
    pub attrs: Vec<AttrDesc>,
}

/// A [`GroupNode`] as a mathematical value.
pub struct GroupModel {
    pub name: Seq<char>,
    pub datasets: Seq<DatasetDesc>,
    pub groups: Seq<GroupModel>,
    pub attrs: Seq<AttrDesc>,
}

impl GroupNode {
    pub open spec fn model(self) -> GroupModel
        decreases self, 0nat,
    {
        GroupModel {
            name: self.name@,
            datasets: self.datasets@,
            groups: groups_model(self.groups, self.groups@.len()),
            attrs: self.attrs@,
        }
    }
}

/// The models of the first `n` groups.
pub open spec fn groups_model(groups: Vec<GroupNode>, n: nat) -> Seq<GroupModel>
    decreases groups, n,
{
    if n == 0 || n > groups@.len() {
        Seq::empty()
    } else {
        groups_model(groups, (n - 1) as nat).push(groups[n - 1].model())
    }
}

impl View for GroupNode {
    type V = GroupModel;

    open spec fn view(&self) -> GroupModel {
        self.model()
    }
}

proof fn lemma_groups_model(groups: Vec<GroupNode>, n: nat)
    requires
        n <= groups@.len(),
    ensures
        groups_model(groups, n) == views(groups@.take(n as int)),
    decreases n,
{
    if n > 0 {
        lemma_groups_model(groups, (n - 1) as nat);
    }
    assert(groups_model(groups, n) =~= views(groups@.take(n as int)));
}

/// A group's sub-groups are its groups, one by one.
pub broadcast proof fn lemma_group_model(node: GroupNode)
    ensures
        (#[trigger] node@) == (GroupModel {
            name: node.name@,
            datasets: node.datasets@,
            groups: views(node.groups@),
            attrs: node.attrs@,
        }),
{
    lemma_groups_model(node.groups, node.groups@.len());
    assert(node.groups@.take(node.groups@.len() as int) =~= node.groups@);
}

/// A group of that name without anything in it.
pub open spec fn empty_group(name: Seq<char>) -> GroupModel {
    GroupModel { name, datasets: Seq::empty(), groups: Seq::empty(), attrs: Seq::empty() }
}

impl GroupNode {
    /// An empty group.
    pub fn new(name: &str) -> (r: GroupNode)
        ensures
            r@ == empty_group(name@),
    {
        let r = GroupNode {
            name: name.to_string(),
            datasets: Vec::new(),
            groups: Vec::new(),
            attrs: Vec::new(),
        };
        proof {
            lemma_group_model(r);
            assert(r@.groups =~= Seq::empty());
        }
        r
    }
}

/// The first dataset of that name.
pub open spec fn dataset_position(datasets: Seq<DatasetDesc>, name: Seq<char>) -> Option<int>
    decreases datasets.len(),
{
    if datasets.len() == 0 {
        None
    } else if dataset_position(datasets.drop_last(), name) is Some {
        dataset_position(datasets.drop_last(), name)
    } else if datasets.last().name@ == name {
        Some(datasets.len() - 1)
    } else {
        None
    }
}

/// The first group of that name.
pub open spec fn group_position(groups: Seq<GroupModel>, name: Seq<char>) -> Option<int>
    decreases groups.len(),
{
    if groups.len() == 0 {
        None
    } else if group_position(groups.drop_last(), name) is Some {
        group_position(groups.drop_last(), name)
    } else if groups.last().name == name {
        Some(groups.len() - 1)
    } else {
        None
    }
}

pub proof fn lemma_dataset_position(datasets: Seq<DatasetDesc>, name: Seq<char>, n: int)
    requires
        0 <= n <= datasets.len(),
    ensures
        dataset_position(datasets, name) is Some ==> 0 <= dataset_position(datasets, name)->0
            < datasets.len() && datasets[dataset_position(datasets, name)->0].name@ == name,
        dataset_position(datasets.take(n), name) is Some ==> dataset_position(datasets, name)
            == dataset_position(datasets.take(n), name),
    decreases datasets.len(),
{
    if datasets.len() > 0 {
        if n < datasets.len() {
            assert(datasets.drop_last().take(n) =~= datasets.take(n));
            lemma_dataset_position(datasets.drop_last(), name, n);
        } else {
            assert(datasets.take(n) =~= datasets);
            lemma_dataset_position(datasets.drop_last(), name, 0);
        }
    } else {
        assert(datasets.take(n) =~= datasets);
    }
}

pub proof fn lemma_group_position(groups: Seq<GroupModel>, name: Seq<char>, n: int)
    requires
        0 <= n <= groups.len(),
    ensures
        group_position(groups, name) is Some ==> 0 <= group_position(groups, name)->0
            < groups.len() && groups[group_position(groups, name)->0].name == name,
        group_position(groups.take(n), name) is Some ==> group_position(groups, name)
            == group_position(groups.take(n), name),
    decreases groups.len(),
{
    if groups.len() > 0 {
        if n < groups.len() {
            assert(groups.drop_last().take(n) =~= groups.take(n));
            lemma_group_position(groups.drop_last(), name, n);
        } else {
            assert(groups.take(n) =~= groups);
            lemma_group_position(groups.drop_last(), name, 0);
        }
    } else {
        assert(groups.take(n) =~= groups);
    }
}

fn find_dataset(datasets: &[DatasetDesc], name: &str) -> (r: Option<usize>)
    ensures
        match r {
            Some(i) => dataset_position(datasets@, name@) == Some(i as int) && i < datasets@.len(),
            None => dataset_position(datasets@, name@) is None,
        },
{
    proof {
        assert(datasets@.take(0) =~= Seq::<DatasetDesc>::empty());
    }
    for i in 0..datasets.len()
        invariant
            dataset_position(datasets@.take(i as int), name@) is None,
    {
        proof {
            assert(datasets@.take(i + 1).drop_last() =~= datasets@.take(i as int));
        }
        if same_text(datasets[i].name.as_str(), name) {
            proof {
                lemma_dataset_position(datasets@, name@, i + 1);
            }
            return Some(i);
        }
    }
    proof {
        assert(datasets@.take(datasets@.len() as int) =~= datasets@);
    }
    None
}

fn find_group(groups: &[GroupNode], name: &str) -> (r: Option<usize>)
    ensures
        match r {
            Some(i) => group_position(views(groups@), name@) == Some(i as int) && i < groups@.len(),
            None => group_position(views(groups@), name@) is None,
        },
{
    let ghost all = views(groups@);
    proof {
        assert(all.take(0) =~= Seq::<GroupModel>::empty());
    }
    for i in 0..groups.len()
        invariant
            all == views(groups@),
            group_position(all.take(i as int), name@) is None,
    {
        proof {
            assert(all.take(i + 1).drop_last() =~= all.take(i as int));
            lemma_group_model(groups@[i as int]);
        }
        if same_text(groups[i].name.as_str(), name) {
            proof {
                lemma_group_position(all, name@, i + 1);
            }
            return Some(i);
        }
    }
    proof {
        assert(all.take(groups@.len() as int) =~= all);
    }
    None
}

/// Whether a dataset or a sub-group has that name.
pub open spec fn has_name(m: GroupModel, name: Seq<char>) -> bool {
    dataset_position(m.datasets, name) is Some || group_position(m.groups, name) is Some
}

/// Whether a dataset or a sub-group of `node` has that name.
pub fn name_taken(node: &GroupNode, name: &str) -> (r: bool)
    ensures
        r == has_name(node@, name@),
{
    proof {
        lemma_group_model(*node);
    }
    find_dataset(&node.datasets, name).is_some() || find_group(&node.groups, name).is_some()
}

/// Whether walking along the names from `m` succeeds. A dataset cannot be walked
/// through. A group that is missing is an error, or with `create` made.
pub open spec fn walk(m: GroupModel, names: Seq<Seq<char>>, create: bool) -> Result<(), ErrorKind>
    decreases names.len(),
{
    if names.len() == 0 {
        Ok(())
    } else {
        match group_position(m.groups, names[0]) {
            Some(i) => walk(m.groups[i], names.skip(1), create),
            None => if dataset_position(m.datasets, names[0]) is Some {
                Err(ErrorKind::Format)
            } else if !create {
                Err(ErrorKind::NotFound)
            } else {
                walk(empty_group(names[0]), names.skip(1), create)
            },
        }
    }
}

/// `m` with other sub-groups.
pub open spec fn with_groups(m: GroupModel, groups: Seq<GroupModel>) -> GroupModel {
    GroupModel { name: m.name, datasets: m.datasets, groups, attrs: m.attrs }
}

/// The tree once the groups along the names are made, as far as that goes.
pub open spec fn created(m: GroupModel, names: Seq<Seq<char>>) -> GroupModel
    decreases names.len(),
{
    if names.len() == 0 {
        m
    } else {
        match group_position(m.groups, names[0]) {
            Some(i) => with_groups(m, m.groups.update(i, created(m.groups[i], names.skip(1)))),
            None => if dataset_position(m.datasets, names[0]) is Some {
                m
            } else {
                with_groups(m, m.groups.push(created(empty_group(names[0]), names.skip(1))))
            },
        }
    }
}

/// The group that the names lead to.
pub open spec fn group_at(m: GroupModel, names: Seq<Seq<char>>) -> GroupModel
    decreases names.len(),
{
    if names.len() == 0 {
        m
    } else {
        match group_position(m.groups, names[0]) {
            Some(i) => group_at(m.groups[i], names.skip(1)),
            None => m,
        }
    }
}

/// The tree with the group that the names lead to replaced.
pub open spec fn replaced(m: GroupModel, names: Seq<Seq<char>>, new: GroupModel) -> GroupModel
    decreases names.len(),
{
    if names.len() == 0 {
        new
    } else {
        match group_position(m.groups, names[0]) {
            Some(i) => with_groups(m, m.groups.update(i, replaced(m.groups[i], names.skip(1), new))),
            None => m,
        }
    }
}

/// The tree after a walk: with `create`, the missing groups are made.
pub open spec fn walked(m: GroupModel, names: Seq<Seq<char>>, create: bool) -> GroupModel {
    if create {
        created(m, names)
    } else {
        m
    }
}

/// Another group of the same name takes the same place.
pub proof fn lemma_position_update(groups: Seq<GroupModel>, i: int, new: GroupModel, name: Seq<char>)
    requires
        0 <= i < groups.len(),
        new.name == groups[i].name,
    ensures
        group_position(groups.update(i, new), name) == group_position(groups, name),
    decreases groups.len(),
{
    let changed = groups.update(i, new);
    if i < groups.len() - 1 {
        assert(changed.drop_last() =~= groups.drop_last().update(i, new));
        lemma_position_update(groups.drop_last(), i, new, name);
    } else {
        assert(changed.drop_last() =~= groups.drop_last());
    }
}

/// A group of a new name is found where it was added.
proof fn lemma_position_push(groups: Seq<GroupModel>, new: GroupModel)
    requires
        group_position(groups, new.name) is None,
    ensures
        group_position(groups.push(new), new.name) == Some(groups.len() as int),
{
    assert(groups.push(new).drop_last() =~= groups);
}

pub proof fn lemma_created_name(m: GroupModel, names: Seq<Seq<char>>)
    ensures
        created(m, names).name == m.name,
{
}

/// What is made along a path is found there.
pub proof fn lemma_created_found(m: GroupModel, names: Seq<Seq<char>>)
    requires
        names.len() > 0,
    ensures
        match group_position(m.groups, names[0]) {
            Some(i) => {
                &&& group_position(created(m, names).groups, names[0]) == Some(i)
                &&& created(m, names).groups[i] == created(m.groups[i], names.skip(1))
            },
            None => dataset_position(m.datasets, names[0]) is None ==> {
                let n = m.groups.len() as int;
                &&& group_position(created(m, names).groups, names[0]) == Some(n)
                &&& created(m, names).groups[n] == created(empty_group(names[0]), names.skip(1))
            },
        },
{
    lemma_group_position(m.groups, names[0], 0);
    match group_position(m.groups, names[0]) {
        Some(i) => {
            lemma_created_name(m.groups[i], names.skip(1));
            lemma_position_update(
                m.groups,
                i,
                created(m.groups[i], names.skip(1)),
                names[0],
            );
        },
        None => {
            lemma_created_name(empty_group(names[0]), names.skip(1));
            lemma_position_push(m.groups, created(empty_group(names[0]), names.skip(1)));
        },
    }
}

/// Find the group that the names lead to from `node`; with `create`, make the
/// groups that are missing. The error for a name of a dataset says that it cannot also
/// be a group.
pub fn group_mut<'a>(node: &'a mut GroupNode, segments: &[&str], create: bool) -> (r: Result<
    &'a mut GroupNode,
    OxiH5Error,
>)
    ensures
        match r {
            Ok(g) => {
                let names = views(segments@);
                let tree = walked(old(node)@, names, create);
                &&& walk(old(node)@, names, create) is Ok
                &&& g@ == group_at(tree, names)
                &&& final(node)@ == replaced(tree, names, final(g)@)
            },
            Err(e) => {
                let names = views(segments@);
                &&& walk(old(node)@, names, create) == Err::<(), ErrorKind>(e@)
                &&& e@ == ErrorKind::Format ==> e.says("cannot also be a group"@)
                &&& final(node)@ == walked(old(node)@, names, create)
            },
        },
    decreases segments@.len(),
{
    if segments.len() == 0 {
        return Ok(node);
    }
    let head: &str = segments[0];
    let tail = vstd::slice::slice_subrange(segments, 1, segments.len());
    let ghost names = views(segments@);
    let ghost m = node@;
    broadcast use lemma_group_model;

    proof {
        assert(views(tail@) =~= names.skip(1));
        lemma_created_found(m, names);
        lemma_group_position(m.groups, names[0], 0);
    }
    let index: usize = match find_group(&node.groups, head) {
        Some(index) => index,
        None => {
            if find_dataset(&node.datasets, head).is_some() {
                return Err(
                    OxiH5Error::Format(
                        text_around(
                            &["'", head, "' is a dataset and "],
                            "cannot also be a group",
                            &[],
                        ),
                    ),
                );
            }
            if !create {
                return Err(OxiH5Error::NotFound(text(&["group '", head, "' not found"])));
            }
            node.groups.push(GroupNode::new(head));
            node.groups.len() - 1
        },
    };
    let ghost groups = views(node.groups@);
    proof {
        assert(index == m.groups.len() ==> groups =~= m.groups.push(empty_group(names[0])));
        assert forall|new: GroupNode| #[trigger] views(node.groups@.update(index as int, new))
            == groups.update(index as int, new@) by {
            assert(views(node.groups@.update(index as int, new)) =~= groups.update(
                index as int,
                new@,
            ));
        }
        assert(groups.update(index as int, groups[index as int]) =~= groups);
        assert forall|new: GroupModel| index == m.groups.len() implies #[trigger] groups.update(
            index as int,
            new,
        ) == m.groups.push(new) by {
            assert(groups.update(index as int, new) =~= m.groups.push(new));
        }
        assert forall|a: GroupModel, b: GroupModel|
            index < m.groups.len() implies #[trigger] m.groups.update(index as int, a).update(
            index as int,
            b,
        ) == m.groups.update(index as int, b) by {
            assert(m.groups.update(index as int, a).update(index as int, b) =~= m.groups.update(
                index as int,
                b,
            ));
        }
        assert forall|a: GroupModel, b: GroupModel| #[trigger] m.groups.push(a).update(
            m.groups.len() as int,
            b,
        ) == m.groups.push(b) by {
            assert(m.groups.push(a).update(m.groups.len() as int, b) =~= m.groups.push(b));
        }
    }
    group_mut(&mut node.groups[index], tail, create)
}

/// Whether a name has a meaning other than itself in paths elsewhere.
pub open spec fn is_dots(name: Seq<char>) -> bool {
    name == "."@ || name == ".."@
}

/// The names along a path, from the root group on. One leading slash does not
/// count. Empty names, dots and paths that are too deep are errors.
pub open spec fn path_names(path: Seq<char>) -> Result<Seq<Seq<char>>, ErrorKind> {
    let rest = without_slash(path);
    let names = parts_of(rest);
    if rest.len() == 0 {
        Ok(Seq::empty())
    } else if names.len() > MAX_PATH_DEPTH || exists|i: int|
        0 <= i < names.len() && !is_plain(#[trigger] names[i]) {
        Err(ErrorKind::Format)
    } else {
        Ok(names)
    }
}

/// Whether a name can stand in a path.
pub open spec fn is_plain(name: Seq<char>) -> bool {
    name.len() > 0 && !is_dots(name)
}

/// Whether a path has more names than the writer takes.
pub open spec fn is_too_deep(path: Seq<char>) -> bool {
    without_slash(path).len() > 0 && parts_of(without_slash(path)).len() > MAX_PATH_DEPTH
}

/// Split a path into its names. The error for a path that is too deep says so.
pub fn split_path<'p>(path: &'p str) -> (r: Result<Vec<&'p str>, OxiH5Error>)
    ensures
        match path_names(path@) {
            Ok(names) => r is Ok && views(r->Ok_0@) == names,
            Err(kind) => r is Err && r->Err_0@ == kind,
        },
        is_too_deep(path@) ==> r is Err && r->Err_0.says("over the writer's limit"@),
{
    let rest: &'p str = strip_slash(path);
    if rest.unicode_len() == 0 {
        let none: Vec<&'p str> = Vec::new();
        proof {
            assert(views(none@) =~= Seq::empty());
        }
        return Ok(none);
    }
    let segments: Vec<&'p str> = split_parts(rest);
    let ghost names = parts_of(rest@);
    if segments.len() > MAX_PATH_DEPTH {
        return Err(
            OxiH5Error::Format(
                text_around(
                    &["path '", path, "' is ", &segments.len().to_string(), " components deep, "],
                    "over the writer's limit",
                    &[" of 64"],
                ),
            ),
        );
    }
    for i in 0..segments.len()
        invariant
            rest@ == without_slash(path@),
            rest@.len() > 0,
            !is_too_deep(path@),
            names == parts_of(rest@),
            views(segments@) == names,
            forall|k: int| 0 <= k < i ==> is_plain(#[trigger] names[k]),
    {
        assert(names[i as int] == segments@[i as int]@);
        if segments[i].unicode_len() == 0 {
            assert(!is_plain(names[i as int]));
            return Err(OxiH5Error::Format(text(&["path '", path, "' has an empty component"])));
        }
        if same_text(segments[i], ".") || same_text(segments[i], "..") {
            assert(!is_plain(names[i as int]));
            return Err(
                OxiH5Error::Format(
                    text(
                        &[
                            "path '",
                            path,
                            "' has a '",
                            segments[i],
                            "' component, which the writer does not resolve",
                        ],
                    ),
                ),
            );
        }
    }
    Ok(segments)
}

/// Putting back what is there changes nothing.
proof fn lemma_replaced_same(m: GroupModel, names: Seq<Seq<char>>)
    ensures
        replaced(m, names, group_at(m, names)) == m,
    decreases names.len(),
{
    if names.len() > 0 {
        lemma_group_position(m.groups, names[0], 0);
        if let Some(i) = group_position(m.groups, names[0]) {
            lemma_replaced_same(m.groups[i], names.skip(1));
            assert(m.groups.update(i, m.groups[i]) =~= m.groups);
        }
    }
}

/// Where a new object of that path would go: the names of the groups above it and
/// its own; or why it cannot be made.
pub open spec fn insertion(m: GroupModel, path: Seq<char>) -> Result<
    (Seq<Seq<char>>, Seq<char>),
    ErrorKind,
> {
    match path_names(path) {
        Err(kind) => Err(kind),
        Ok(names) => if names.len() == 0 {
            Err(ErrorKind::Format)
        } else {
            match walk(m, names.drop_last(), true) {
                Err(kind) => Err(kind),
                Ok(_) => if has_name(
                    group_at(created(m, names.drop_last()), names.drop_last()),
                    names.last(),
                ) {
                    Err(ErrorKind::Format)
                } else {
                    Ok((names.drop_last(), names.last()))
                },
            }
        },
    }
}

/// The tree once the groups above a new object of that path are made, as far as
/// that goes.
pub open spec fn prepared(m: GroupModel, path: Seq<char>) -> GroupModel {
    match path_names(path) {
        Ok(names) if names.len() > 0 => created(m, names.drop_last()),
        _ => m,
    }
}

/// Find the group for a new object of that path, making the groups above it, and
/// the name that it takes there.
pub fn insertion_point<'a, 'p>(root: &'a mut GroupNode, path: &'p str, what: &str) -> (r: Result<
    (&'a mut GroupNode, &'p str),
    OxiH5Error,
>)
    ensures
        match r {
            Ok((parent, name)) => {
                let tree = prepared(old(root)@, path@);
                &&& insertion(old(root)@, path@) is Ok
                &&& name@ == insertion(old(root)@, path@)->Ok_0.1
                &&& parent@ == group_at(tree, insertion(old(root)@, path@)->Ok_0.0)
                &&& final(root)@ == replaced(
                    tree,
                    insertion(old(root)@, path@)->Ok_0.0,
                    final(parent)@,
                )
            },
            Err(e) => {
                &&& insertion(old(root)@, path@) == Err::<(Seq<Seq<char>>, Seq<char>), ErrorKind>(
                    e@,
                )
                &&& final(root)@ == prepared(old(root)@, path@)
            },
        },
{
    let segments: Vec<&'p str> = split_path(path)?;
    let n: usize = segments.len();
    if n == 0 {
        return Err(OxiH5Error::Format(text(&[what, " name must not be empty"])));
    }
    let name: &'p str = segments[n - 1];
    let parents = vstd::slice::slice_subrange(segments.as_slice(), 0, n - 1);
    let ghost names = views(segments@);
    let ghost tree = created(root@, names.drop_last());
    proof {
        assert(views(parents@) =~= names.drop_last());
        assert(names.last() == name@);
        lemma_replaced_same(tree, names.drop_last());
    }
    let parent: &'a mut GroupNode = group_mut(root, parents, true)?;
    if name_taken(parent, name) {
        return Err(
            OxiH5Error::Format(
                text(
                    &[
                        "'",
                        path,
                        "' already exists: a dataset or group named '",
                        name,
                        "' is already in that group",
                    ],
                ),
            ),
        );
    }
    Ok((parent, name))
}

/// What an attribute can be attached to.
pub enum Owner {
    /// The group at the end of the path's parents itself: the root group.
    Root,
    /// A dataset of that group.
    Dataset(int),
    /// A sub-group of that group.
    Group(int),
}

/// What a path names, and the names of the groups above it.
pub open spec fn owner_of(m: GroupModel, path: Seq<char>) -> Result<
    (Seq<Seq<char>>, Owner),
    ErrorKind,
> {
    match path_names(path) {
        Err(kind) => Err(kind),
        Ok(names) => if names.len() == 0 {
            Ok((Seq::empty(), Owner::Root))
        } else {
            let above = names.drop_last();
            match walk(m, above, false) {
                Err(_) => Err(ErrorKind::NotFound),
                Ok(_) => {
                    let parent = group_at(m, above);
                    match (
                        dataset_position(parent.datasets, names.last()),
                        group_position(parent.groups, names.last()),
                    ) {
                        (Some(i), _) => Ok((above, Owner::Dataset(i))),
                        (None, Some(i)) => Ok((above, Owner::Group(i))),
                        (None, None) => Err(ErrorKind::NotFound),
                    }
                },
            }
        },
    }
}

/// The attributes of an owner in its group.
pub open spec fn attrs_of(parent: GroupModel, owner: Owner) -> Seq<AttrDesc> {
    match owner {
        Owner::Root => parent.attrs,
        Owner::Dataset(i) => parent.datasets[i].attrs@,
        Owner::Group(i) => parent.groups[i].attrs,
    }
}

/// Two datasets that differ in their attributes at most.
pub open spec fn same_but_attrs(a: DatasetDesc, b: DatasetDesc) -> bool {
    &&& a.name == b.name
    &&& a.raw == b.raw
    &&& a.shape == b.shape
    &&& a.elem_type == b.elem_type
    &&& a.storage == b.storage
    &&& a.filter == b.filter
    &&& a.vlen_strings == b.vlen_strings
}

/// A group with other attributes.
pub open spec fn with_attrs(m: GroupModel, attrs: Seq<AttrDesc>) -> GroupModel {
    GroupModel { name: m.name, datasets: m.datasets, groups: m.groups, attrs }
}

/// `after` is `before` with the attributes of the owner replaced.
pub open spec fn attrs_replaced(
    before: GroupModel,
    after: GroupModel,
    owner: Owner,
    attrs: Seq<AttrDesc>,
) -> bool {
    match owner {
        Owner::Root => after == with_attrs(before, attrs),
        Owner::Group(i) => after == with_groups(
            before,
            before.groups.update(i, with_attrs(before.groups[i], attrs)),
        ),
        Owner::Dataset(i) => {
            &&& after.name == before.name
            &&& after.groups == before.groups
            &&& after.attrs == before.attrs
            &&& after.datasets == before.datasets.update(i, after.datasets[i])
            &&& same_but_attrs(after.datasets[i], before.datasets[i])
            &&& after.datasets[i].attrs@ == attrs
        },
    }
}

/// Find the attributes of the dataset or group that a path names, of a dataset
/// rather than of a group of the same name.
pub fn attrs_mut<'a>(root: &'a mut GroupNode, path: &str) -> (r: Result<
    &'a mut Vec<AttrDesc>,
    OxiH5Error,
>)
    ensures
        match r {
            Ok(attrs) => {
                let found = owner_of(old(root)@, path@);
                let above = found->Ok_0.0;
                let parent = group_at(old(root)@, above);
                &&& found is Ok
                &&& attrs@ == attrs_of(parent, found->Ok_0.1)
                &&& exists|new: GroupModel|
                    {
                        &&& final(root)@ == #[trigger] replaced(old(root)@, above, new)
                        &&& attrs_replaced(parent, new, found->Ok_0.1, final(attrs)@)
                    }
            },
            Err(e) => {
                &&& owner_of(old(root)@, path@) == Err::<(Seq<Seq<char>>, Owner), ErrorKind>(e@)
                &&& final(root)@ == old(root)@
            },
        },
{
    broadcast use lemma_group_model;

    let segments: Vec<&str> = split_path(path)?;
    let n: usize = segments.len();
    let ghost names = views(segments@);
    let ghost m = root@;
    if n == 0 {
        proof {
            assert forall|new: GroupModel| #[trigger] replaced(m, names, new) == new by {}
            assert(replaced(m, names, final(root)@) == final(root)@);
            assert(names =~= Seq::empty());
        }
        return Ok(&mut root.attrs);
    }
    let name: &str = segments[n - 1];
    let parents = vstd::slice::slice_subrange(segments.as_slice(), 0, n - 1);
    proof {
        assert(views(parents@) =~= names.drop_last());
        assert(names.last() == name@);
        lemma_replaced_same(m, names.drop_last());
    }
    let parent: &'a mut GroupNode = match group_mut(root, parents, false) {
        Ok(parent) => parent,
        Err(_) => {
            return Err(OxiH5Error::NotFound(text(&["'", path, "' names no dataset or group"])));
        },
    };
    let dataset: Option<usize> = find_dataset(&parent.datasets, name);
    if let Some(index) = dataset {
        return Ok(&mut parent.datasets[index].attrs);
    }
    let group: Option<usize> = find_group(&parent.groups, name);
    if let Some(index) = group {
        proof {
            let groups = views(parent.groups@);
            assert forall|new: GroupNode| #[trigger] views(parent.groups@.update(index as int, new))
                == groups.update(index as int, new@) by {
                assert(views(parent.groups@.update(index as int, new)) =~= groups.update(
                    index as int,
                    new@,
                ));
            }
        }
        return Ok(&mut parent.groups[index].attrs);
    }
    Err(OxiH5Error::NotFound(text(&["'", path, "' names no dataset or group"])))
}

/// The dataset that a path names: the names of the groups above it and its place in
/// its group.
pub open spec fn dataset_of(m: GroupModel, path: Seq<char>) -> Result<
    (Seq<Seq<char>>, int),
    ErrorKind,
> {
    match path_names(path) {
        Err(kind) => Err(kind),
        Ok(names) => if names.len() == 0 {
            Err(ErrorKind::Format)
        } else {
            let above = names.drop_last();
            match walk(m, above, false) {
                Err(_) => Err(ErrorKind::NotFound),
                Ok(_) => {
                    let parent = group_at(m, above);
                    match dataset_position(parent.datasets, names.last()) {
                        Some(i) => Ok((above, i)),
                        None => Err(ErrorKind::NotFound),
                    }
                },
            }
        },
    }
}

/// Whether a path names a group below the root group, and no dataset.
pub open spec fn names_group(m: GroupModel, path: Seq<char>) -> bool {
    match path_names(path) {
        Err(_) => false,
        Ok(names) => {
            let parent = group_at(m, names.drop_last());
            &&& names.len() > 0
            &&& walk(m, names.drop_last(), false) is Ok
            &&& dataset_position(parent.datasets, names.last()) is None
            &&& group_position(parent.groups, names.last()) is Some
        },
    }
}

/// A group with other datasets.
pub open spec fn with_datasets(m: GroupModel, datasets: Seq<DatasetDesc>) -> GroupModel {
    GroupModel { name: m.name, datasets, groups: m.groups, attrs: m.attrs }
}

/// Find the dataset that a path names; a group is not one, and the error says so.
pub fn dataset_mut<'a>(root: &'a mut GroupNode, path: &str) -> (r: Result<
    &'a mut DatasetDesc,
    OxiH5Error,
>)
    ensures
        match r {
            Ok(ds) => {
                let found = dataset_of(old(root)@, path@);
                let above = found->Ok_0.0;
                let i = found->Ok_0.1;
                let parent = group_at(old(root)@, above);
                &&& found is Ok
                &&& *ds == parent.datasets[i]
                &&& final(root)@ == replaced(
                    old(root)@,
                    above,
                    with_datasets(parent, parent.datasets.update(i, *final(ds))),
                )
            },
            Err(e) => {
                &&& dataset_of(old(root)@, path@) == Err::<(Seq<Seq<char>>, int), ErrorKind>(e@)
                &&& names_group(old(root)@, path@) ==> e.says("is a group"@)
                &&& final(root)@ == old(root)@
            },
        },
{
    broadcast use lemma_group_model;

    let segments: Vec<&str> = split_path(path)?;
    let n: usize = segments.len();
    let ghost names = views(segments@);
    let ghost m = root@;
    if n == 0 {
        return Err(OxiH5Error::Format("the root group is not a dataset".to_string()));
    }
    let name: &str = segments[n - 1];
    let parents = vstd::slice::slice_subrange(segments.as_slice(), 0, n - 1);
    proof {
        assert(views(parents@) =~= names.drop_last());
        assert(names.last() == name@);
        lemma_replaced_same(m, names.drop_last());
    }
    let parent: &'a mut GroupNode = match group_mut(root, parents, false) {
        Ok(parent) => parent,
        Err(_) => {
            return Err(OxiH5Error::NotFound(text(&["'", path, "' names no dataset"])));
        },
    };
    let dataset: Option<usize> = find_dataset(&parent.datasets, name);
    if let Some(index) = dataset {
        return Ok(&mut parent.datasets[index]);
    }
    if find_group(&parent.groups, name).is_some() {
        return Err(
            OxiH5Error::NotFound(text_around(&["'", path, "' "], "is a group", &[", not a dataset"])),
        );
    }
    Err(OxiH5Error::NotFound(text(&["'", path, "' names no dataset"])))
}

/// What was put at the end of a path is found there: after making the groups along
/// some names and replacing the last one by a group of the same name, the names
/// lead to the replacement.
pub proof fn law_replaced_is_found(m: GroupModel, names: Seq<Seq<char>>, new: GroupModel)
    requires
        walk(m, names, true) is Ok,
        new.name == group_at(created(m, names), names).name,
    ensures
        group_at(replaced(created(m, names), names, new), names) == new,
        walk(replaced(created(m, names), names, new), names, false) is Ok,
        replaced(created(m, names), names, new).name == if names.len() == 0 {
            new.name
        } else {
            m.name
        },
    decreases names.len(),
{
    if names.len() > 0 {
        lemma_created_found(m, names);
        lemma_group_position(m.groups, names[0], 0);
        let tree = created(m, names);
        let rest = names.skip(1);
        let child = match group_position(m.groups, names[0]) {
            Some(i) => m.groups[i],
            None => empty_group(names[0]),
        };
        law_replaced_is_found(child, rest, new);
        let i = group_position(tree.groups, names[0])->0;
        lemma_group_position(tree.groups, names[0], 0);
        lemma_created_name(child, rest);
        let changed = replaced(created(child, rest), rest, new);
        if rest.len() == 0 {
            assert(changed == new);
            assert(group_at(created(child, rest), rest) == created(child, rest));
        }
        lemma_position_update(tree.groups, i, changed, names[0]);
    }
}

} // verus!
