//! Files with groups, attributes, strings and chunks.

use oxih5::dtype::RefType;
use oxih5::values::decode_vlen_strings;
use oxih5::write::attr::{AttrDesc, AttrKind};
use oxih5::write::elem::ElemType;
use oxih5::write::emit::build_bytes;
use oxih5::write::tree::{DatasetDesc, Filter, GroupNode, Storage};
use oxih5::{
    DimSelection, Dtype, File, FileWriter, Float, GroupTarget, ObjectKind, OxiH5Error,
};

fn dataset(name: &str, raw: Vec<u8>, shape: Vec<usize>) -> DatasetDesc {
    DatasetDesc {
        name: name.to_string(),
        raw,
        shape,
        elem_type: ElemType::U8,
        attrs: Vec::new(),
        storage: Storage::Contiguous,
        filter: None,
        vlen_strings: None,
    }
}

fn chunked(name: &str, raw: Vec<u8>, shape: Vec<usize>, chunk_shape: Vec<usize>) -> DatasetDesc {
    DatasetDesc {
        storage: Storage::Chunked {
            chunk_shape,
            unlimited_dim0: true,
        },
        ..dataset(name, raw, shape)
    }
}

fn strings(name: &str, values: &[&str]) -> DatasetDesc {
    DatasetDesc {
        elem_type: ElemType::VlenStr,
        vlen_strings: Some(values.iter().map(|s| s.to_string()).collect()),
        ..dataset(name, Vec::new(), vec![values.len()])
    }
}

fn attr(name: &str, kind: AttrKind) -> AttrDesc {
    AttrDesc {
        name: name.to_string(),
        kind,
    }
}

/// `/top`, `/a/grid`, `/a/b/deep`, `/a/b/words`, with attributes here and there.
fn sample() -> GroupNode {
    let mut root = GroupNode::new("");
    let mut top = dataset("top", vec![9, 8, 7], vec![3]);
    top.attrs.push(attr("units", AttrKind::FixedStr("km".to_string())));
    top.attrs.push(attr("offset", AttrKind::I64(-5)));
    top.attrs.push(attr("scale", AttrKind::F64(2.5f64.to_bits())));
    top.attrs.push(attr("rank", AttrKind::I32(-7)));
    top.attrs.push(attr(
        "labels",
        AttrKind::StrArray(vec!["ab".to_string(), "".to_string(), "cdef".to_string()]),
    ));
    top.attrs.push(attr(
        "refs",
        AttrKind::ObjRefsByName(vec!["/a/b/deep".to_string(), "a".to_string(), "/".to_string()]),
    ));
    root.datasets.push(top);
    root.datasets.push(strings("names", &["first", "", "žluť"]));
    let mut a = GroupNode::new("a");
    a.attrs.push(attr("kind", AttrKind::FixedStr("outer".to_string())));
    a.datasets
        .push(chunked("grid", (0u8..6).collect(), vec![2, 3], Vec::new()));
    let mut b = GroupNode::new("b");
    b.datasets.push(dataset("deep", vec![1, 2, 3, 4], vec![2, 2]));
    b.datasets.push(strings("words", &["alpha", "beta"]));
    a.groups.push(b);
    root.groups.push(a);
    root
}

#[test]
fn datasets_are_found_at_any_depth() {
    let bytes = build_bytes(&sample()).unwrap();
    let mut file = File::open_from_bytes(&bytes).unwrap();
    assert_eq!(file.dataset("top").unwrap().data, vec![9, 8, 7]);
    assert_eq!(file.dataset("/a/b/deep").unwrap().data, vec![1, 2, 3, 4]);
    assert_eq!(file.dataset("a/b/deep").unwrap().shape, vec![2, 2]);
    assert!(matches!(file.dataset("a/b/none"), Err(OxiH5Error::NotFound(_))));
    assert!(matches!(file.dataset("top/x"), Err(OxiH5Error::NotFound(_))));
    assert!(matches!(file.dataset("/"), Err(OxiH5Error::NotFound(_))));
}

#[test]
fn a_single_chunk_reads_back() {
    let bytes = build_bytes(&sample()).unwrap();
    let mut file = File::open_from_bytes(&bytes).unwrap();
    let ds = file.dataset("a/grid").unwrap();
    assert_eq!(ds.data, vec![0, 1, 2, 3, 4, 5]);
    assert_eq!(ds.shape, vec![2, 3]);
    // The second read takes the index from the cache.
    assert_eq!(file.dataset("a/grid").unwrap().data, vec![0, 1, 2, 3, 4, 5]);
}

#[test]
fn part_of_a_chunked_dataset_is_read() {
    let bytes = build_bytes(&sample()).unwrap();
    let mut file = File::open_from_bytes(&bytes).unwrap();
    let part = file.dataset_slice("a/grid", &[0..2, 1..3]).unwrap();
    assert_eq!(part.shape, vec![2, 2]);
    assert_eq!(part.data, vec![1, 2, 4, 5]);
    let part = file.dataset_slice("a/b/deep", &[1..2, 0..2]).unwrap();
    assert_eq!(part.data, vec![3, 4]);
    assert!(file.dataset_slice("a/grid", &[0..2, 1..4]).is_err());
    assert!(file.dataset_slice("a/b/deep", &[0..3, 0..2]).is_err());
}

#[test]
fn strided_selections_are_read() {
    let bytes = build_bytes(&sample()).unwrap();
    let mut file = File::open_from_bytes(&bytes).unwrap();
    let every_second = DimSelection {
        start: 0,
        stride: 2,
        count: 2,
        block: 1,
    };
    let last = DimSelection {
        start: 1,
        stride: 1,
        count: 1,
        block: 1,
    };
    let part = file
        .dataset_hyperslab("a/grid", &[last, every_second])
        .unwrap();
    assert_eq!(part.shape, vec![1, 2]);
    assert_eq!(part.data, vec![3, 5]);
    // The same selection of a dataset in one run of bytes.
    let blocks = DimSelection {
        start: 0,
        stride: 1,
        count: 1,
        block: 2,
    };
    let part = file.dataset_hyperslab("a/b/deep", &[blocks, last]).unwrap();
    assert_eq!(part.shape, vec![2, 1]);
    assert_eq!(part.data, vec![2, 4]);
    // Beyond the extent.
    let far = DimSelection {
        start: 2,
        stride: 1,
        count: 1,
        block: 1,
    };
    assert!(file.dataset_hyperslab("a/b/deep", &[far, last]).is_err());
}

#[test]
fn strings_are_read_through_the_global_heap() {
    let bytes = build_bytes(&sample()).unwrap();
    let mut file = File::open_from_bytes(&bytes).unwrap();
    assert_eq!(
        file.dataset_strings("names").unwrap(),
        vec!["first".to_string(), "".to_string(), "žluť".to_string()]
    );
    assert_eq!(
        file.dataset_strings("a/b/words").unwrap(),
        vec!["alpha".to_string(), "beta".to_string()]
    );
    assert!(matches!(
        file.dataset_strings("top"),
        Err(OxiH5Error::TypeMismatch)
    ));
}

#[test]
fn strings_of_fixed_length_are_read_as_such() {
    let mut writer = FileWriter::new();
    writer.write_dataset_u8("s", b"ab", &[2]).unwrap();
    let mut bytes = writer.build_to_vec().unwrap();
    // Make the datatype that of strings of one byte.
    let integer = [0x10, 0, 0, 0, 1, 0, 0, 0];
    let at = (0..bytes.len() - 8)
        .find(|&i| bytes[i..i + 8] == integer)
        .unwrap();
    bytes[at] = 0x13;
    let mut file = File::open_from_bytes(&bytes).unwrap();
    assert!(matches!(
        file.dataset_strings("s"),
        Err(OxiH5Error::TypeMismatch)
    ));
    assert_eq!(file.dataset("s").unwrap().as_string().unwrap(), ["a", "b"]);
}

#[test]
fn strings_in_a_chunk_are_read() {
    let mut root = GroupNode::new("");
    let words = strings("words", &["one", "", "three"]);
    root.datasets.push(DatasetDesc {
        storage: Storage::Chunked {
            chunk_shape: Vec::new(),
            unlimited_dim0: true,
        },
        ..words
    });
    let bytes = build_bytes(&root).unwrap();
    let mut file = File::open_from_bytes(&bytes).unwrap();
    assert_eq!(file.dataset_strings("words").unwrap(), ["one", "", "three"]);
    let part = file.dataset_slice("words", &[1..3]).unwrap();
    assert_eq!(part.shape, vec![2]);
    assert_eq!(decode_vlen_strings(&bytes, &part.data, 2).unwrap(), ["", "three"]);
    let first_and_last = DimSelection {
        start: 0,
        stride: 2,
        count: 2,
        block: 1,
    };
    let part = file.dataset_hyperslab("words", &[first_and_last]).unwrap();
    assert_eq!(decode_vlen_strings(&bytes, &part.data, 2).unwrap(), ["one", "three"]);
}

#[test]
fn attributes_read_back() {
    let bytes = build_bytes(&sample()).unwrap();
    let mut file = File::open_from_bytes(&bytes).unwrap();
    let views = file.attr_views("top").unwrap();
    assert_eq!(views.len(), 6);
    assert_eq!(views[0].name(), "units");
    assert_eq!(views[0].as_str_fixed(), Some("km".to_string()));
    assert_eq!(views[1].as_i64(), Some(-5));
    assert_eq!(views[2].as_f64(), Some(Float::Double(2.5f64.to_bits())));
    assert_eq!(views[3].as_i64(), Some(-7));
    assert_eq!(
        views[4].as_strings().unwrap(),
        vec!["ab".to_string(), "".to_string(), "cdef".to_string()]
    );
    let refs = views[5].as_object_refs().unwrap();
    assert_eq!(refs[0], file.header_addr_of("a/b/deep").unwrap());
    assert_eq!(refs[1], file.group("a").unwrap().object_header_address);
    assert_eq!(refs[2], file.root().unwrap().object_header_address);
    assert!(matches!(
        file.object_at(refs[0]),
        Ok(ObjectKind::Dataset(_))
    ));
    assert_eq!(file.dataset_at(refs[0]).unwrap().data, vec![1, 2, 3, 4]);
    assert!(matches!(
        file.dataset_at(refs[1]),
        Err(OxiH5Error::TypeMismatch)
    ));
    if let Ok(ObjectKind::Group(group)) = file.object_at(refs[1]) {
        assert_eq!(group.name, format!("@{:#x}", refs[1]));
        assert_eq!(group.groups().unwrap(), vec!["b".to_string()]);
    } else {
        panic!("expected a group");
    }
    let attrs = file.group("a").unwrap().attrs().unwrap();
    assert_eq!(attrs[0].as_str_fixed(), Some("outer".to_string()));
    assert_eq!(file.group("a").unwrap().attr_views().unwrap().len(), 1);
}

#[test]
fn a_reference_to_nothing_is_refused() {
    let mut root = sample();
    root.attrs.push(attr(
        "bad",
        AttrKind::ObjRefsByName(vec!["a/none".to_string()]),
    ));
    assert!(matches!(build_bytes(&root), Err(OxiH5Error::Format(_))));
}

#[test]
fn groups_list_their_members_by_name() {
    let bytes = build_bytes(&sample()).unwrap();
    let file = File::open_from_bytes(&bytes).unwrap();
    let root = file.root().unwrap();
    assert_eq!(root.name, "/");
    assert_eq!(
        root.datasets().unwrap(),
        vec!["names".to_string(), "top".to_string()]
    );
    assert_eq!(root.groups().unwrap(), vec!["a".to_string()]);
    let b = match file.group("a").unwrap().group("b").unwrap() {
        GroupTarget::Here(group) => group,
        GroupTarget::Elsewhere { .. } => panic!("b is in the same file"),
    };
    assert_eq!(
        b.datasets().unwrap(),
        vec!["deep".to_string(), "words".to_string()]
    );
    assert!(b.groups().unwrap().is_empty());
    assert!(matches!(
        file.group("a").unwrap().group("grid"),
        Err(OxiH5Error::NotFound(_))
    ));
    assert!(matches!(file.group("a/grid"), Err(OxiH5Error::NotFound(_))));
}

#[test]
fn groups_read_their_datasets() {
    let bytes = build_bytes(&sample()).unwrap();
    let file = File::open_from_bytes(&bytes).unwrap();
    let mut a = file.group("/a").unwrap();
    assert_eq!(a.dataset("grid").unwrap().data.len(), 6);
    assert_eq!(a.dataset_slice("grid", &[1..2, 0..3]).unwrap().data, vec![3, 4, 5]);
    let one = DimSelection {
        start: 1,
        stride: 1,
        count: 1,
        block: 1,
    };
    assert_eq!(a.dataset_hyperslab("grid", &[one, one]).unwrap().data, vec![4]);
    assert!(a.dataset("b").is_err());
}

#[test]
fn the_whole_file_is_listed() {
    let bytes = build_bytes(&sample()).unwrap();
    let file = File::open_from_bytes(&bytes).unwrap();
    let list = file.walk().unwrap();
    let want: Vec<(String, bool)> = [
        ("/names", false),
        ("/top", false),
        ("/a", true),
        ("/a/grid", false),
        ("/a/b", true),
        ("/a/b/deep", false),
        ("/a/b/words", false),
    ]
    .iter()
    .map(|(p, g)| (p.to_string(), *g))
    .collect();
    assert_eq!(list, want);
}

#[test]
fn contains_sees_datasets_and_groups() {
    let bytes = build_bytes(&sample()).unwrap();
    let file = File::open_from_bytes(&bytes).unwrap();
    assert!(file.contains("top"));
    assert!(file.contains("/a/b"));
    assert!(file.contains("/"));
    assert!(!file.contains("/a/c"));
}

#[test]
fn info_tells_the_size() {
    let bytes = build_bytes(&sample()).unwrap();
    let file = File::open_from_bytes(&bytes).unwrap();
    let info = file.info().unwrap();
    assert_eq!(info.superblock_version, 0);
    assert_eq!(info.file_size, bytes.len() as u64);
    assert_eq!(info.offset_size, 8);
    assert_eq!(info.length_size, 8);
}

#[test]
fn a_written_file_ends_where_its_superblock_says() {
    let bytes = build_bytes(&sample()).unwrap();
    let eof = u64::from_le_bytes(bytes[40..48].try_into().unwrap());
    assert_eq!(eof, bytes.len() as u64);
    assert_eq!(bytes.len() % 8, 0);
}

#[test]
fn datasets_of_many_chunks_are_written() {
    // Seven by five in chunks of three by two: the last ones reach behind the extents.
    let raw: Vec<u8> = (0u8..35).collect();
    for filter in [None, Some(Filter::Deflate { level: 6 })] {
        let mut root = GroupNode::new("");
        let mut grid = chunked("grid", raw.clone(), vec![7, 5], vec![3, 2]);
        grid.filter = filter;
        root.datasets.push(grid);
        root.datasets.push(dataset("after", vec![1, 2], vec![2]));
        let bytes = build_bytes(&root).unwrap();
        let mut file = File::open_from_bytes(&bytes).unwrap();
        let whole = file.dataset("grid").unwrap();
        assert_eq!(whole.data, raw);
        assert_eq!(whole.shape, vec![7, 5]);
        assert_eq!(file.dataset("after").unwrap().data, vec![1, 2]);
        let part = file.dataset_slice("grid", &[2..5, 1..4]).unwrap();
        assert_eq!(part.data, vec![11, 12, 13, 16, 17, 18, 21, 22, 23]);
        let every = |start: u64, stride: u64, count: u64| DimSelection {
            start,
            stride,
            count,
            block: 1,
        };
        let picked = file
            .dataset_hyperslab("grid", &[every(0, 3, 3), every(1, 2, 2)])
            .unwrap();
        assert_eq!(picked.data, vec![1, 3, 16, 18, 31, 33]);
    }
}

#[test]
fn chunk_indexes_of_several_levels_are_written() {
    // A leaf lists 64 chunks, a node above it 64 leaves.
    for n in [64usize, 65, 200, 4097] {
        let raw: Vec<u8> = (0..n).map(|i| (i * 7 % 251) as u8).collect();
        let mut root = GroupNode::new("");
        root.datasets
            .push(chunked("line", raw.clone(), vec![n], vec![1]));
        let bytes = build_bytes(&root).unwrap();
        let mut file = File::open_from_bytes(&bytes).unwrap();
        assert_eq!(file.dataset("line").unwrap().data, raw);
        let part = file.dataset_slice("line", &[n - 3..n]).unwrap();
        assert_eq!(part.data, raw[n - 3..].to_vec());
    }
}

#[test]
fn empty_datasets_of_chunks_are_written() {
    let mut root = GroupNode::new("");
    root.datasets
        .push(chunked("none", Vec::new(), vec![0, 3], vec![2, 2]));
    let bytes = build_bytes(&root).unwrap();
    let mut file = File::open_from_bytes(&bytes).unwrap();
    let none = file.dataset("none").unwrap();
    assert!(none.data.is_empty());
    assert_eq!(none.shape, vec![0, 3]);
}

#[test]
fn strings_are_written_in_chunks() {
    let mut root = GroupNode::new("");
    let mut words = strings("words", &["one", "", "three", "four", "five"]);
    words.storage = Storage::Chunked {
        chunk_shape: vec![2],
        unlimited_dim0: true,
    };
    root.datasets.push(words);
    let bytes = build_bytes(&root).unwrap();
    let mut file = File::open_from_bytes(&bytes).unwrap();
    let words = file.dataset("words").unwrap();
    assert_eq!(
        decode_vlen_strings(&bytes, &words.data, 5).unwrap(),
        vec!["one", "", "three", "four", "five"]
    );
}

#[test]
fn what_cannot_be_laid_out_is_refused() {
    // Elements that do not fill the shape.
    let mut root = GroupNode::new("");
    root.datasets.push(chunked("c", vec![0; 3], vec![4], vec![2]));
    assert!(matches!(build_bytes(&root), Err(OxiH5Error::Format(_))));
    // A chunk without elements.
    let mut root = GroupNode::new("");
    root.datasets.push(chunked("c", vec![0; 4], vec![4], vec![0]));
    assert!(matches!(build_bytes(&root), Err(OxiH5Error::Format(_))));
    // A chunk whose size does not fit its field.
    let mut root = GroupNode::new("");
    root.datasets
        .push(chunked("c", vec![0; 4], vec![4], vec![1 << 32]));
    assert!(matches!(build_bytes(&root), Err(OxiH5Error::Format(_))));
    // A filter without chunks, of an unknown level, and over references to strings.
    let mut root = GroupNode::new("");
    let mut ds = dataset("c", vec![0; 4], vec![4]);
    ds.filter = Some(Filter::Deflate { level: 6 });
    root.datasets.push(ds);
    assert!(matches!(build_bytes(&root), Err(OxiH5Error::Format(_))));
    let mut root = GroupNode::new("");
    let mut ds = chunked("c", vec![0; 4], vec![4], Vec::new());
    ds.filter = Some(Filter::Deflate { level: 10 });
    root.datasets.push(ds);
    assert!(matches!(build_bytes(&root), Err(OxiH5Error::Format(_))));
    let mut root = GroupNode::new("");
    let mut ds = strings("c", &["one", "two"]);
    ds.storage = Storage::Chunked {
        chunk_shape: Vec::new(),
        unlimited_dim0: false,
    };
    ds.filter = Some(Filter::Deflate { level: 6 });
    root.datasets.push(ds);
    assert!(matches!(build_bytes(&root), Err(OxiH5Error::Format(_))));
    // Too many dimensions.
    let mut root = GroupNode::new("");
    root.datasets.push(dataset("d", vec![1], vec![1; 256]));
    assert!(matches!(build_bytes(&root), Err(OxiH5Error::Format(_))));
    let mut root = GroupNode::new("");
    root.datasets
        .push(chunked("d", vec![1], vec![1; 255], Vec::new()));
    assert!(matches!(build_bytes(&root), Err(OxiH5Error::Format(_))));
}

#[test]
fn groups_of_many_links_are_written() {
    let mut root = GroupNode::new("");
    for i in (0..20u8).rev() {
        root.datasets
            .push(dataset(&format!("d{i:02}"), vec![i], vec![1]));
    }
    let mut full = GroupNode::new("e");
    for i in 0..256 {
        full.groups.push(GroupNode::new(&format!("g{i:03}")));
    }
    root.groups.push(full);
    let bytes = build_bytes(&root).unwrap();
    let mut file = File::open_from_bytes(&bytes).unwrap();
    for i in 0..20u8 {
        assert_eq!(file.dataset(&format!("d{i:02}")).unwrap().data, vec![i]);
    }
    let names: Vec<String> = (0..20).map(|i| format!("d{i:02}")).collect();
    assert_eq!(file.dataset_names().unwrap(), names);
    let names: Vec<String> = (0..256).map(|i| format!("g{i:03}")).collect();
    assert_eq!(file.group("e").unwrap().groups().unwrap(), names);
    assert!(file.contains("e/g255"));
    assert!(!file.contains("e/g256"));
}

#[test]
fn groups_grow_levels_of_their_tree() {
    // A symbol table node holds eight links, a node of the tree 32 children.
    for n in [257usize, 8193] {
        let mut root = GroupNode::new("");
        for i in 0..n {
            root.groups.push(GroupNode::new(&format!("g{i:05}")));
        }
        root.datasets.push(dataset("last", vec![5], vec![1]));
        let bytes = build_bytes(&root).unwrap();
        let mut file = File::open_from_bytes(&bytes).unwrap();
        let names: Vec<String> = (0..n).map(|i| format!("g{i:05}")).collect();
        assert_eq!(file.root().unwrap().groups().unwrap(), names);
        assert_eq!(file.dataset("last").unwrap().data, vec![5]);
        assert!(file.contains(&names[n - 1]));
        assert!(!file.contains("h"));
    }
}

#[test]
fn as_many_dimensions_as_fit_are_written() {
    let mut root = GroupNode::new("");
    root.datasets.push(dataset("d", vec![5], vec![1; 255]));
    root.datasets
        .push(chunked("c", vec![6], vec![1; 254], Vec::new()));
    let bytes = build_bytes(&root).unwrap();
    let mut file = File::open_from_bytes(&bytes).unwrap();
    let ds = file.dataset("d").unwrap();
    assert_eq!(ds.shape, vec![1; 255]);
    assert_eq!(ds.data, vec![5]);
    assert_eq!(file.dataset("c").unwrap().data, vec![6]);
}

#[test]
fn the_writer_stays_as_it_is_after_a_refusal() {
    let mut writer = FileWriter::new();
    writer.write_dataset_u8("a", &[1], &[1]).unwrap();
    assert!(writer.write_dataset_u8("a", &[2], &[1]).is_err());
    assert!(writer.write_dataset_u8("", &[2], &[1]).is_err());
    assert_eq!(writer.root_node().datasets.len(), 1);
    let first = writer.build_to_vec().unwrap();
    assert_eq!(writer.build_to_vec().unwrap(), first);
}

#[test]
fn written_types_are_read_as_such() {
    let bytes = build_bytes(&sample()).unwrap();
    let mut file = File::open_from_bytes(&bytes).unwrap();
    assert!(matches!(
        file.dataset("names").unwrap().dtype,
        Dtype::String {
            fixed_len: None,
            ..
        }
    ));
    let views = file.attr_views("top").unwrap();
    assert!(matches!(
        views[5].dtype(),
        Dtype::Reference {
            ref_type: RefType::Object
        }
    ));
}

#[test]
fn one_shot_reads_take_bytes() {
    let bytes = build_bytes(&sample()).unwrap();
    assert_eq!(oxih5::read_dataset(&bytes, "top").unwrap().data, vec![9, 8, 7]);
    let one = DimSelection {
        start: 1,
        stride: 1,
        count: 2,
        block: 1,
    };
    assert_eq!(
        oxih5::read_dataset_hyperslab(&bytes, "top", &[one]).unwrap().data,
        vec![8, 7]
    );
    assert_eq!(oxih5::version(), "0.1.0");
}
