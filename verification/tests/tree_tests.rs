//! Trees of groups.

use oxih5::write::attr::{AttrDesc, AttrKind};
use oxih5::write::elem::ElemType;
use oxih5::write::tree::{
    attrs_mut, dataset_mut, group_mut, insertion_point, name_taken, split_path, DatasetDesc,
    GroupNode, Storage, MAX_PATH_DEPTH,
};
use oxih5::OxiH5Error;

fn tree() -> GroupNode {
    GroupNode::new("")
}

fn dataset(name: &str) -> DatasetDesc {
    DatasetDesc {
        name: name.to_string(),
        raw: Vec::new(),
        shape: vec![0],
        elem_type: ElemType::U8,
        attrs: Vec::new(),
        storage: Storage::Contiguous,
        filter: None,
        vlen_strings: None,
    }
}

#[test]
fn a_leading_slash_is_optional_and_the_root_has_no_components() {
    assert_eq!(split_path("a/b/c").expect("relative"), vec!["a", "b", "c"]);
    assert_eq!(split_path("/a/b/c").expect("absolute"), vec!["a", "b", "c"]);
    assert_eq!(split_path("x").expect("bare"), vec!["x"]);
    assert!(split_path("/").expect("root").is_empty());
    assert!(split_path("").expect("empty").is_empty());
}

#[test]
fn malformed_paths_are_rejected() {
    for path in ["a//b", "a/", "//a", "a/./b", "a/../b", "/.", ".."] {
        assert!(
            split_path(path).is_err(),
            "'{path}' should have been rejected"
        );
    }
}

#[test]
fn paths_deeper_than_the_cap_are_rejected() {
    let ok = vec!["g"; MAX_PATH_DEPTH].join("/");
    assert_eq!(split_path(&ok).expect("at the cap").len(), MAX_PATH_DEPTH);

    let too_deep = vec!["g"; MAX_PATH_DEPTH + 1].join("/");
    let err = split_path(&too_deep).expect_err("over the cap");
    assert!(
        err.message().contains("over the writer's limit"),
        "{err:?}"
    );
}

#[test]
fn intermediate_groups_are_created_on_demand() {
    let mut root = tree();
    let deep = group_mut(&mut root, &["a", "b", "c"], true).expect("create");
    deep.datasets.push(dataset("x"));

    // Same walk again must land on the same node, not build a second one.
    let again = group_mut(&mut root, &["a", "b", "c"], true).expect("revisit");
    assert_eq!(again.datasets.len(), 1);
    assert_eq!(root.groups.len(), 1);
    assert_eq!(root.groups[0].name, "a");
}

#[test]
fn lookup_without_create_reports_a_missing_group() {
    let mut root = tree();
    let Err(err) = group_mut(&mut root, &["nope"], false) else {
        panic!("a missing group must not be created");
    };
    assert!(matches!(err, OxiH5Error::NotFound(_)), "{err:?}");
    assert!(root.groups.is_empty(), "a failed lookup must not mutate");
}

#[test]
fn a_dataset_name_cannot_be_walked_through_as_a_group() {
    let mut root = tree();
    root.datasets.push(dataset("a"));
    let Err(err) = group_mut(&mut root, &["a", "b"], true) else {
        panic!("a dataset must not be walked through");
    };
    assert!(err.message().contains("cannot also be a group"), "{err:?}");
}

#[test]
fn name_taken_sees_both_kinds() {
    let mut root = tree();
    root.datasets.push(dataset("ds"));
    root.groups.push(GroupNode::new("grp"));
    assert!(name_taken(&root, "ds"));
    assert!(name_taken(&root, "grp"));
    assert!(!name_taken(&root, "other"));
}

#[test]
fn insertion_refuses_a_name_of_either_kind() {
    let mut root = tree();
    root.datasets.push(dataset("ds"));
    root.groups.push(GroupNode::new("grp"));
    assert!(insertion_point(&mut root, "ds", "dataset").is_err());
    assert!(insertion_point(&mut root, "grp", "dataset").is_err());
    assert!(insertion_point(&mut root, "", "dataset").is_err());
    assert!(insertion_point(&mut root, "/", "dataset").is_err());

    let (parent, name) = insertion_point(&mut root, "/a/b/fresh", "dataset").expect("fresh");
    assert_eq!(name, "fresh");
    assert!(parent.datasets.is_empty());
}

#[test]
fn attrs_resolve_to_root_datasets_and_groups_at_any_depth() {
    let mut root = tree();
    {
        let (parent, name) = insertion_point(&mut root, "a/b/x", "dataset").expect("x");
        parent.datasets.push(dataset(name));
    }
    root.datasets.push(dataset("top"));

    // Root group, both spellings.
    assert!(attrs_mut(&mut root, "/").is_ok());
    assert!(attrs_mut(&mut root, "").is_ok());
    // A bare name still finds the root dataset.
    assert!(attrs_mut(&mut root, "top").is_ok());
    assert!(attrs_mut(&mut root, "/top").is_ok());
    // A nested group, and a nested dataset.
    assert!(attrs_mut(&mut root, "a/b").is_ok());
    assert!(attrs_mut(&mut root, "/a/b/x").is_ok());
    // Nothing of that name anywhere.
    assert!(attrs_mut(&mut root, "a/b/nope").is_err());
    assert!(attrs_mut(&mut root, "nope/x").is_err());
}

/// Dataset lookup is stricter than attribute lookup: it never settles for a
/// group, and it says so rather than reporting the object as missing.
#[test]
fn dataset_lookup_refuses_groups_and_the_root() {
    let mut root = tree();
    {
        let (parent, name) = insertion_point(&mut root, "a/b/x", "dataset").expect("x");
        parent.datasets.push(dataset(name));
    }
    root.datasets.push(dataset("top"));
    root.groups.push(GroupNode::new("grp"));

    assert_eq!(dataset_mut(&mut root, "top").expect("top").name, "top");
    assert_eq!(dataset_mut(&mut root, "/a/b/x").expect("nested").name, "x");

    let Err(err) = dataset_mut(&mut root, "grp") else {
        panic!("a group is not a dataset");
    };
    assert!(err.message().contains("is a group"), "{err:?}");
    assert!(matches!(
        dataset_mut(&mut root, "/"),
        Err(OxiH5Error::Format(_))
    ));
    assert!(matches!(
        dataset_mut(&mut root, "nope"),
        Err(OxiH5Error::NotFound(_))
    ));
    assert!(matches!(
        dataset_mut(&mut root, "a/b/nope"),
        Err(OxiH5Error::NotFound(_))
    ));
    // A missing *parent* must not be created on the way to a lookup.
    assert!(dataset_mut(&mut root, "fresh/x").is_err());
    assert_eq!(
        root.groups
            .iter()
            .map(|g| g.name.as_str())
            .collect::<Vec<_>>(),
        vec!["a", "grp"],
        "a failed lookup must not create the groups on its path"
    );
}

/// A dataset and a group of the same name in one group resolve differently,
/// so the tie-break has to be pinned even though `name_taken` makes the
/// situation unreachable through the public API.
#[test]
fn attribute_lookup_prefers_a_dataset_over_a_group() {
    let mut root = tree();
    root.groups.push(GroupNode::new("dup"));
    root.datasets.push(dataset("dup"));

    let attrs = attrs_mut(&mut root, "dup").expect("dup");
    attrs.push(AttrDesc {
        name: "marker".to_string(),
        kind: AttrKind::I32(1),
    });
    assert_eq!(root.datasets[0].attrs.len(), 1, "dataset must win");
    assert!(root.groups[0].attrs.is_empty());
}

#[test]
fn paths_through_datasets_and_to_groups_are_told_apart() {
    let mut root = tree();
    root.datasets.push(dataset("a"));
    root.groups.push(GroupNode::new("grp"));
    // A dataset in the way is no missing group.
    assert!(matches!(
        group_mut(&mut root, &["a"], false),
        Err(OxiH5Error::Format(_))
    ));
    assert!(matches!(
        group_mut(&mut root, &["grp", "b"], false),
        Err(OxiH5Error::NotFound(_))
    ));
    // Nothing is below a dataset.
    assert!(matches!(
        attrs_mut(&mut root, "a/x"),
        Err(OxiH5Error::NotFound(_))
    ));
    assert!(matches!(
        dataset_mut(&mut root, "a/x"),
        Err(OxiH5Error::NotFound(_))
    ));
    // A group is no dataset.
    assert!(matches!(
        dataset_mut(&mut root, "grp"),
        Err(OxiH5Error::NotFound(m)) if m.contains("is a group")
    ));
    assert_eq!(root.groups.len(), 1);
}
