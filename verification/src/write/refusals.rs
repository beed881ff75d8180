//! Why a file is not written: always for its format.

use vstd::prelude::*;
use crate::error::ErrorKind;
use crate::write::attr::AttrModel;
use crate::write::emit::{
    dataset_image, datasets_image, file_addresses, file_image, group_image, groups_end,
    groups_image, written_file,
};
use crate::write::layout::{
    dataset_place, first_layout_error, first_storage_error, group_place, layout_error,
    storage_error,
};
use crate::write::messages::{with_attr_msgs, MsgModel};
use crate::write::plan::{datasets_strings, groups_strings};
use crate::write::tree::{DatasetDesc, GroupModel};

verus! {

/// Whether an outcome is no other error than one of the format.
spec fn right_or_format<T>(r: Result<T, ErrorKind>) -> bool {
    r is Err ==> r->Err_0 == ErrorKind::Format
}

proof fn lemma_attrs(msgs: Seq<MsgModel>, attrs: Seq<(Seq<u8>, AttrModel)>)
    ensures
        right_or_format(with_attr_msgs(msgs, attrs)),
    decreases attrs.len(),
{
    if attrs.len() > 0 {
        lemma_attrs(msgs, attrs.drop_last());
    }
}

proof fn lemma_dataset(
    ds: DatasetDesc,
    at: nat,
    map: Map<Seq<char>, u64>,
    gcol: nat,
    before: nat,
)
    ensures
        right_or_format(dataset_image(ds, at, map, gcol, before)),
{
    reveal(dataset_image);
    assert forall|msgs: Seq<MsgModel>, attrs: Seq<(Seq<u8>, AttrModel)>| right_or_format(
        #[trigger] with_attr_msgs(msgs, attrs),
    ) by {
        lemma_attrs(msgs, attrs);
    }
}

proof fn lemma_datasets(
    m: GroupModel,
    at: nat,
    map: Map<Seq<char>, u64>,
    gcol: nat,
    before: nat,
    n: nat,
)
    ensures
        right_or_format(datasets_image(m, at, map, gcol, before, n)),
    decreases n,
{
    if n > 0 {
        lemma_datasets(m, at, map, gcol, before, (n - 1) as nat);
        lemma_dataset(
            m.datasets[n - 1],
            dataset_place(m, at, n - 1),
            map,
            gcol,
            before + datasets_strings(m.datasets.take(n - 1)).len(),
        );
    }
}

proof fn lemma_group(
    m: GroupModel,
    at: nat,
    map: Map<Seq<char>, u64>,
    gcol: nat,
    before: nat,
)
    ensures
        right_or_format(group_image(m, at, map, gcol, before)),
    decreases m, m.groups.len() + 1,
{
    assert forall|msgs: Seq<MsgModel>, attrs: Seq<(Seq<u8>, AttrModel)>| right_or_format(
        #[trigger] with_attr_msgs(msgs, attrs),
    ) by {
        lemma_attrs(msgs, attrs);
    }
    lemma_datasets(m, at, map, gcol, before, m.datasets.len());
    lemma_groups(m, at, map, gcol, before, m.groups.len());
}

proof fn lemma_groups(
    m: GroupModel,
    at: nat,
    map: Map<Seq<char>, u64>,
    gcol: nat,
    before: nat,
    n: nat,
)
    ensures
        right_or_format(groups_image(m, at, map, gcol, before, n)),
    decreases m, n,
{
    if 0 < n <= m.groups.len() {
        lemma_groups(m, at, map, gcol, before, (n - 1) as nat);
        lemma_group(
            m.groups[n - 1],
            group_place(m, at, n - 1),
            map,
            gcol,
            before + datasets_strings(m.datasets).len() + groups_strings(
                m.groups,
                (n - 1) as nat,
            ).len(),
        );
    }
}

proof fn lemma_storage(datasets: Seq<DatasetDesc>)
    ensures
        first_storage_error(datasets) is Some ==> first_storage_error(datasets)
            == Some(ErrorKind::Format),
    decreases datasets.len(),
{
    reveal(storage_error);
    if datasets.len() > 0 {
        lemma_storage(datasets.drop_last());
    }
}

proof fn lemma_layout(m: GroupModel)
    ensures
        layout_error(m) is Some ==> layout_error(m) == Some(ErrorKind::Format),
    decreases m, 0nat,
{
    lemma_storage(m.datasets);
    lemma_layouts(m.groups, m.groups.len());
}

proof fn lemma_layouts(groups: Seq<GroupModel>, n: nat)
    ensures
        first_layout_error(groups, n) is Some ==> first_layout_error(groups, n) == Some(
            ErrorKind::Format,
        ),
    decreases groups, n,
{
    if 0 < n <= groups.len() {
        lemma_layouts(groups, (n - 1) as nat);
        lemma_layout(groups[n - 1]);
    }
}

/// A file that is not written is refused for its format: because something does not fit
/// its field, a reference leads nowhere, or the writer does not lay it out.
pub proof fn law_refusals_are_format(root: GroupModel)
    ensures
        written_file(root) is Err ==> written_file(root) == Err::<Seq<u8>, ErrorKind>(
            ErrorKind::Format,
        ),
{
    reveal(file_image);
    lemma_layout(root);
    lemma_group(root, 96, file_addresses(root), groups_end(root), 0);
}

} // verus!
