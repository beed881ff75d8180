//! Laying out a file.

use oxih5::write::attr::{pad8, AddressMap};
use oxih5::write::chunked::chunk_node_size;
use oxih5::write::elem::ElemType;
use oxih5::write::format::ROOT_OH_ADDR;
use oxih5::write::links::{build_local_heap, sorted_links, LinkTarget, MIN_HEAP_DATA_SIZE};
use oxih5::write::plan::plan_group;
use oxih5::write::tree::{DatasetDesc, Filter, GroupNode, Storage};

fn dataset(name: &str) -> DatasetDesc {
    DatasetDesc {
        name: name.to_string(),
        raw: vec![0u8; 8],
        shape: vec![1],
        elem_type: ElemType::F64,
        attrs: Vec::new(),
        storage: Storage::Contiguous,
        filter: None,
        vlen_strings: None,
    }
}

#[test]
fn empty_local_heap_is_padded_to_the_minimum() {
    let heap = build_local_heap(&[]);
    assert!(heap.name_offsets.is_empty());
    assert_eq!(heap.used, 8);
    assert_eq!(heap.data.len(), MIN_HEAP_DATA_SIZE);
    // Free list starts at `used`: link = 1, then the free block length.
    assert_eq!(
        u64::from_le_bytes(heap.data[8..16].try_into().expect("8 bytes")),
        1
    );
    assert_eq!(
        u64::from_le_bytes(heap.data[16..24].try_into().expect("8 bytes")),
        (MIN_HEAP_DATA_SIZE - 8) as u64
    );
}

#[test]
fn local_heap_names_are_nul_terminated_and_aligned() {
    let heap = build_local_heap(&["lat", "longitude"]);
    assert_eq!(heap.name_offsets, vec![8, 16]);
    assert_eq!(&heap.data[8..12], b"lat\0");
    assert_eq!(&heap.data[16..26], b"longitude\0");
    // "longitude\0" is 10 bytes, padded up to 16.
    assert_eq!(heap.used, 32);
    assert_eq!(heap.used % 8, 0);
}

#[test]
fn local_heap_grows_past_the_minimum_when_needed() {
    let names: Vec<String> = (0..16).map(|i| format!("dataset_number_{i:03}")).collect();
    let names: Vec<&str> = names.iter().map(String::as_str).collect();
    let heap = build_local_heap(&names);
    assert!(heap.data.len() > MIN_HEAP_DATA_SIZE);
    assert!(heap.data.len() >= heap.used + 16);
    assert_eq!(heap.data.len() % 8, 0);
}

/// Datasets and sub-groups share one name ordering.
#[test]
fn links_interleave_datasets_and_groups_by_name() {
    let datasets = vec![dataset("zebra"), dataset("apple")];
    let groups = vec![GroupNode::new("mango"), GroupNode::new("banana")];
    let links = sorted_links(&datasets, &groups);
    let names: Vec<&str> = links.iter().map(|link| link.name).collect();
    assert_eq!(names, vec!["apple", "banana", "mango", "zebra"]);
    // The targets still index the *declaration* order they came from.
    assert!(matches!(links[0].target, LinkTarget::Dataset(1)));
    assert!(matches!(links[1].target, LinkTarget::Group(1)));
    assert!(matches!(links[2].target, LinkTarget::Group(0)));
    assert!(matches!(links[3].target, LinkTarget::Dataset(0)));
}

fn deflated(name: &str, bytes: usize) -> DatasetDesc {
    DatasetDesc {
        name: name.to_string(),
        raw: vec![0x5Au8; bytes],
        shape: vec![bytes],
        elem_type: ElemType::U8,
        attrs: Vec::new(),
        storage: Storage::Chunked {
            chunk_shape: Vec::new(),
            unlimited_dim0: false,
        },
        filter: Some(Filter::Deflate { level: 6 }),
        vlen_strings: None,
    }
}

/// A compressed dataset reserves its **compressed** length, and reserves it
/// before anything is written.
#[test]
fn a_compressed_dataset_reserves_its_compressed_length() {
    let mut root = GroupNode::new("");
    root.datasets.push(deflated("packed", 4096));
    root.datasets.push(dataset("after"));

    let mut current = ROOT_OH_ADDR;
    let plan = plan_group(&root, &mut current).expect("plan");
    let packed = &plan.datasets[0];
    let after = &plan.datasets[1];

    assert_eq!(
        packed.chunk_sizes.len(),
        1,
        "one chunk covers the whole dataset"
    );
    assert!(
        packed.chunk_sizes[0] < 4096,
        "4 KiB of one repeated byte must compress: {} bytes",
        packed.chunk_sizes[0]
    );
    assert_eq!(packed.chunk_addrs, vec![packed.data_addr]);
    let reserved = pad8(packed.chunk_sizes[0]);

    // The chunk index is reserved *between* the header and the data, so the
    // keys can name chunk addresses that are already final.
    assert!(packed.btree_addr > packed.oh_addr);
    assert!(packed.data_addr > packed.btree_addr);
    assert_eq!(
        packed.data_addr - packed.btree_addr,
        chunk_node_size(1),
        "the node occupies the full width libhdf5 reads"
    );

    // And the dataset after it starts past everything the first one owns —
    // which it would not if the reservation had used the raw length.
    assert_eq!(
        after.oh_addr,
        packed.data_addr + reserved,
        "the reservation is the compressed length, not the raw one"
    );
    assert!(
        after.oh_addr < packed.data_addr + 4096,
        "reserving the *raw* 4096 bytes would push the next dataset out here"
    );
}

/// Nested groups are laid out depth-first, and every reserved region is
/// disjoint and ascending.
#[test]
fn nested_groups_are_planned_without_overlap() {
    let mut root = GroupNode::new("");
    root.datasets.push(dataset("top"));
    let mut a = GroupNode::new("a");
    let mut b = GroupNode::new("b");
    b.datasets.push(dataset("deep"));
    a.groups.push(b);
    root.groups.push(a);

    let mut current = ROOT_OH_ADDR;
    let plan = plan_group(&root, &mut current).expect("plan");

    assert_eq!(plan.oh_addr, ROOT_OH_ADDR);
    let a_plan = &plan.groups[0];
    let b_plan = &a_plan.groups[0];
    assert!(a_plan.oh_addr > plan.oh_addr);
    assert!(b_plan.oh_addr > a_plan.oh_addr);
    assert!(b_plan.datasets[0].oh_addr > b_plan.oh_addr);
    assert!(current > b_plan.datasets[0].data_addr);

    // Each group owns its own symbol table, at its own address.
    assert_ne!(plan.sym.heap_hdr_addr, a_plan.sym.heap_hdr_addr);
    assert_ne!(a_plan.sym.heap_hdr_addr, b_plan.sym.heap_hdr_addr);
    assert_ne!(plan.sym.btree_addr, a_plan.sym.btree_addr);
}

/// The address map keys every object by its path, root items by bare name,
/// and the root group itself by the empty path.
#[test]
fn addresses_are_collected_by_full_path() {
    let mut root = GroupNode::new("");
    root.datasets.push(dataset("top"));
    let mut a = GroupNode::new("a");
    let mut b = GroupNode::new("b");
    b.datasets.push(dataset("deep"));
    a.groups.push(b);
    root.groups.push(a);

    let mut current = ROOT_OH_ADDR;
    let plan = plan_group(&root, &mut current).expect("plan");
    let mut map = AddressMap::new();
    plan.collect_addresses("", &mut map);

    let mut keys: Vec<String> = map.keys();
    keys.sort_unstable();
    assert_eq!(keys, vec!["", "a", "a/b", "a/b/deep", "top"]);
    assert_eq!(map.get(""), Some(ROOT_OH_ADDR as u64));
    assert_eq!(
        map.get("a/b/deep"),
        Some(plan.groups[0].groups[0].datasets[0].oh_addr as u64)
    );
}
