//! Messages, datatypes, selections and numbers.

use oxih5::chunk_reader::{
    apply_filters_to_chunk, read_chunked, read_chunked_slice_filled, resolve_chunk_index, ChunkIndex,
    ChunkSliceParams,
};
use oxih5::dataset_reader::{
    hyperslab_dataset_at_header, read_dataset_from_object_header, slice_dataset_at_header,
};
use oxih5::datatype::parse_datatype;
use oxih5::filters::{apply_pipeline, compress, fletcher32};
use oxih5::float::f16_to_f32;
use oxih5::global_heap_writer::GlobalHeapWriter;
use oxih5::header::parse_messages;
use oxih5::hyperslab::gather_hyperslab_contiguous;
use oxih5::message::{parse_attribute, parse_fill_value, parse_layout, parse_symbol_table};
use oxih5::object::LayoutInfo;
use oxih5::vds::{parse_mapping_block, read_virtual_dataset, VdsEntry, VdsSelection};
use oxih5::write::checked_byte_len;
use oxih5::{
    ByteOrder, Charset, ChunkIndexCache, Dataset, DimSelection, Dtype, File, FileWriter, FilterInfo,
    FilterPipeline, Hyperslab, OxiH5Error, RefType, Value,
};

fn int32() -> Vec<u8> {
    vec![0x10, 8, 0, 0, 4, 0, 0, 0, 0, 0, 32, 0]
}

#[test]
fn compound_types_are_parsed() {
    // Version 3: names end with a zero byte, offsets have one byte.
    let mut body = vec![0x36u8, 2, 0, 0, 12, 0, 0, 0];
    body.extend_from_slice(b"x\0\0");
    body.extend_from_slice(&int32());
    body.extend_from_slice(b"name\0\x04");
    body.extend_from_slice(&[0x13, 0x00, 0, 0, 8, 0, 0, 0]);
    let dtype = parse_datatype(&body).unwrap();
    if let Dtype::Compound { fields } = &dtype {
        assert_eq!(fields.len(), 2);
        assert_eq!(fields[0].name, "x");
        assert_eq!(fields[0].offset, 0);
        assert_eq!(fields[1].name, "name");
        assert_eq!(fields[1].offset, 4);
        assert_eq!(
            fields[1].dtype,
            Dtype::String {
                fixed_len: Some(8),
                charset: Charset::Ascii
            }
        );
    } else {
        panic!("expected a compound type");
    }
    assert_eq!(dtype.size(), Some(12));
    assert!(parse_datatype(&body[..20]).is_err());
}

#[test]
fn compound_types_of_the_first_version_are_padded() {
    let mut body = vec![0x16u8, 1, 0, 0, 4, 0, 0, 0];
    body.extend_from_slice(b"x\0\0\0\0\0\0\0");
    body.extend_from_slice(&0u32.to_le_bytes());
    body.extend_from_slice(&[0u8; 28]);
    body.extend_from_slice(&int32());
    let dtype = parse_datatype(&body).unwrap();
    assert!(matches!(dtype, Dtype::Compound { ref fields } if fields[0].name == "x"));
}

#[test]
fn enumerations_arrays_and_the_rest_are_parsed() {
    let mut body = vec![0x38u8, 2, 0, 0, 1, 0, 0, 0];
    body.extend_from_slice(&[0x10, 8, 0, 0, 1, 0, 0, 0, 0, 0, 8, 0]);
    body.extend_from_slice(b"no\0yes\0");
    body.extend_from_slice(&[0, 0xff]);
    assert_eq!(
        parse_datatype(&body).unwrap(),
        Dtype::Enum {
            base: Box::new(Dtype::Int {
                size: 1,
                signed: true,
                order: ByteOrder::Little
            }),
            members: vec![("no".to_string(), 0), ("yes".to_string(), -1)],
        }
    );
    let mut body = vec![0x3Au8, 0, 0, 0, 24, 0, 0, 0, 2];
    body.extend_from_slice(&2u32.to_le_bytes());
    body.extend_from_slice(&3u32.to_le_bytes());
    body.extend_from_slice(&int32());
    assert_eq!(
        parse_datatype(&body).unwrap(),
        Dtype::Array {
            base: Box::new(Dtype::Int {
                size: 4,
                signed: true,
                order: ByteOrder::Little
            }),
            dims: vec![2, 3],
        }
    );
    let mut body = vec![0x19u8, 0, 0, 0, 16, 0, 0, 0];
    body.extend_from_slice(&int32());
    assert!(matches!(
        parse_datatype(&body).unwrap(),
        Dtype::VarLen { .. }
    ));
    assert_eq!(
        parse_datatype(&[0x15, 8, 0, 0, 3, 0, 0, 0, b't', b'a', b'g', 0, 0, 0, 0, 0]).unwrap(),
        Dtype::Opaque {
            size: 3,
            tag: "tag".to_string()
        }
    );
    assert_eq!(
        parse_datatype(&[0x14, 1, 0, 0, 2, 0, 0, 0, 0, 0, 16, 0]).unwrap(),
        Dtype::Bitfield {
            size: 2,
            order: ByteOrder::Big
        }
    );
    assert_eq!(
        parse_datatype(&[0x17, 1, 0, 0, 12, 0, 0, 0]).unwrap(),
        Dtype::Reference {
            ref_type: RefType::Region
        }
    );
    assert!(matches!(
        parse_datatype(&[0x12, 0, 0, 0, 4, 0, 0, 0]),
        Err(OxiH5Error::UnsupportedDatatype(2))
    ));
    assert!(matches!(
        parse_datatype(&[0x10, 0, 0]),
        Err(OxiH5Error::Format(_))
    ));
}

#[test]
fn layouts_are_parsed() {
    let mut body = vec![3u8, 2, 3];
    body.extend_from_slice(&0x40u64.to_le_bytes());
    for n in [4u32, 5, 8] {
        body.extend_from_slice(&n.to_le_bytes());
    }
    assert_eq!(
        parse_layout(&body).unwrap(),
        LayoutInfo::Chunked {
            data_address: 0x40,
            dimensionality: 3,
            chunk_dims: vec![4, 5, 8],
            index_type: 0
        }
    );
    let mut body = vec![4u8, 2, 0, 2, 1, 4, 8, 3, 10];
    body.extend_from_slice(&0x80u64.to_le_bytes());
    assert_eq!(
        parse_layout(&body).unwrap(),
        LayoutInfo::Chunked {
            data_address: 0x80,
            dimensionality: 2,
            chunk_dims: vec![4, 8],
            index_type: 1
        }
    );
    body[7] = 1;
    assert!(matches!(
        parse_layout(&body),
        Err(OxiH5Error::NotImplemented(_))
    ));
    let mut body = vec![4u8, 3];
    body.extend_from_slice(&0x99u64.to_le_bytes());
    body.extend_from_slice(&2u32.to_le_bytes());
    assert_eq!(
        parse_layout(&body).unwrap(),
        LayoutInfo::VirtualDataset {
            heap_address: 0x99,
            heap_index: 2
        }
    );
    assert!(matches!(
        parse_layout(&[2, 1]),
        Err(OxiH5Error::UnsupportedLayout(2))
    ));
    assert!(matches!(parse_layout(&[3]), Err(OxiH5Error::Format(_))));
}

#[test]
fn attributes_of_each_version_are_parsed() {
    let dtype = [0x10u8, 0, 0, 0, 1, 0, 0, 0, 0, 0, 8, 0];
    let space = [2u8, 0, 0, 0];
    for version in [2u8, 3] {
        let mut body = vec![version, 0];
        body.extend_from_slice(&2u16.to_le_bytes());
        body.extend_from_slice(&12u16.to_le_bytes());
        body.extend_from_slice(&4u16.to_le_bytes());
        if version == 3 {
            body.push(0);
        }
        body.extend_from_slice(b"n\0");
        body.extend_from_slice(&dtype);
        body.extend_from_slice(&space);
        body.push(42);
        let attr = parse_attribute(&body).unwrap();
        assert_eq!(attr.name, "n");
        assert_eq!(attr.as_u64(), Some(42));
    }
    assert!(parse_attribute(&[4, 0, 0, 0, 0, 0, 0, 0]).is_err());
    assert!(parse_symbol_table(&[0u8; 15]).is_err());
}

#[test]
fn headers_may_go_on_elsewhere() {
    let mut file = vec![0u8; 96];
    file[0] = 1;
    file[2] = 2;
    file[8] = 24;
    // A continuation, then in the further block one message.
    file[16] = 0x10;
    file[18] = 16;
    file[24..32].copy_from_slice(&64u64.to_le_bytes());
    file[32..40].copy_from_slice(&16u64.to_le_bytes());
    file[64] = 0x0C;
    file[66] = 3;
    file[68] = 1;
    file[72..75].copy_from_slice(&[5, 6, 7]);
    let messages = parse_messages(&file, 0).unwrap();
    assert_eq!(messages.len(), 2);
    assert_eq!(messages[1].msg_type, 0x0C);
    assert_eq!(messages[1].flags, 1);
    assert_eq!(messages[1].data, vec![5, 6, 7]);
    file[66] = 20;
    assert!(matches!(parse_messages(&file, 0), Err(OxiH5Error::Format(_))));
    assert!(matches!(parse_messages(&file, 90), Err(OxiH5Error::Format(_))));
    assert!(matches!(
        parse_messages(&file, 64),
        Err(OxiH5Error::UnsupportedHeader(0x0C))
    ));
}

#[test]
fn selections_pick_elements() {
    let data: Vec<u8> = (0u8..12).collect();
    let rows = DimSelection {
        start: 0,
        stride: 2,
        count: 2,
        block: 1,
    };
    let columns = DimSelection {
        start: 1,
        stride: 2,
        count: 1,
        block: 3,
    };
    let slab = Hyperslab {
        dims: vec![rows, columns],
    };
    assert_eq!(slab.output_shape(), vec![2, 3]);
    assert_eq!(slab.bounding_ranges(), vec![0..3, 1..4]);
    assert_eq!(
        gather_hyperslab_contiguous(&data, &[3, 4], &slab, 1).unwrap(),
        vec![1, 2, 3, 9, 10, 11]
    );
    // Every position: the data itself.
    let all = |n: u64| DimSelection {
        start: 0,
        stride: 1,
        count: n,
        block: 1,
    };
    let slab = Hyperslab {
        dims: vec![all(3), all(4)],
    };
    assert_eq!(
        gather_hyperslab_contiguous(&data, &[3, 4], &slab, 1).unwrap(),
        data
    );
    assert!(gather_hyperslab_contiguous(&data, &[3, 3], &slab, 1).is_err());
    assert!(gather_hyperslab_contiguous(&data, &[12], &slab, 1).is_err());
    assert!(gather_hyperslab_contiguous(&data, &[3, 4], &slab, 2).is_err());
    let none = Hyperslab {
        dims: vec![all(0), all(4)],
    };
    assert!(gather_hyperslab_contiguous(&data, &[3, 4], &none, 1)
        .unwrap()
        .is_empty());
}

#[test]
fn half_precision_is_widened() {
    let cases: [(u16, f32); 8] = [
        (0x0000, 0.0),
        (0x8000, -0.0),
        (0x3C00, 1.0),
        (0xC000, -2.0),
        (0x0001, 5.9604645e-8),
        (0x03FF, 6.097555e-5),
        (0x7BFF, 65504.0),
        (0x7C00, f32::INFINITY),
    ];
    for (half, single) in cases {
        assert_eq!(f16_to_f32(half), single.to_bits(), "{half:#x}");
    }
}

#[test]
fn byte_lengths_are_checked() {
    assert_eq!(checked_byte_len("x", &[2, 3], 4).unwrap(), 24);
    assert_eq!(checked_byte_len("x", &[], 8).unwrap(), 8);
    assert!(matches!(
        checked_byte_len("x", &[usize::MAX, 2], 1),
        Err(OxiH5Error::Format(_))
    ));
    assert!(matches!(
        checked_byte_len("x", &[usize::MAX], 2),
        Err(OxiH5Error::Format(_))
    ));
    // The product is taken from the first extent on.
    assert!(checked_byte_len("x", &[usize::MAX, 2, 0], 1).is_err());
    assert_eq!(checked_byte_len("x", &[0, usize::MAX, 2], 1).unwrap(), 0);
}

fn bytes_dataset(data: Vec<u8>) -> Dataset {
    Dataset {
        shape: vec![data.len()],
        data,
        dtype: Dtype::Int {
            size: 1,
            signed: false,
            order: ByteOrder::Little,
        },
        attributes: vec![],
    }
}

fn entry(from: VdsSelection, to: VdsSelection) -> VdsEntry {
    VdsEntry {
        source_file: ".".to_string(),
        source_dataset: "src".to_string(),
        source_selection: from,
        virtual_selection: to,
    }
}

fn slab(start: u64, stride: u64, count: u64, block: u64) -> VdsSelection {
    VdsSelection::Slab(vec![DimSelection {
        start,
        stride,
        count,
        block,
    }])
}

#[test]
fn virtual_datasets_are_put_together() {
    let dtype = Dtype::Int {
        size: 1,
        signed: false,
        order: ByteOrder::Little,
    };
    let entries = vec![
        entry(slab(0, 2, 2, 1), slab(0, 1, 1, 2)),
        entry(VdsSelection::Everything, slab(1, 1, 1, 1)),
        entry(VdsSelection::Nothing, VdsSelection::Nothing),
    ];
    let sources = vec![
        bytes_dataset(vec![1, 2, 3]),
        bytes_dataset(vec![9]),
        bytes_dataset(vec![7]),
    ];
    assert_eq!(
        read_virtual_dataset(&[4], &dtype, &entries, &sources).unwrap(),
        vec![1, 9, 0, 0]
    );
    // All of one source.
    assert_eq!(
        read_virtual_dataset(
            &[3],
            &dtype,
            &[entry(VdsSelection::Everything, VdsSelection::Everything)],
            &sources[..1]
        )
        .unwrap(),
        vec![1, 2, 3]
    );
    // Beyond the virtual dataset, beyond the source, more than are placed, of another size,
    // and without a source.
    assert!(read_virtual_dataset(&[1], &dtype, &entries, &sources).is_err());
    let beyond = vec![entry(slab(3, 1, 1, 1), slab(0, 1, 1, 1))];
    assert!(read_virtual_dataset(&[1], &dtype, &beyond, &sources[..1]).is_err());
    let more = vec![entry(VdsSelection::Everything, slab(0, 1, 1, 1))];
    assert!(read_virtual_dataset(&[1], &dtype, &more, &sources[..1]).is_err());
    let wide = Dtype::Float {
        size: 8,
        order: ByteOrder::Little,
    };
    assert!(read_virtual_dataset(&[4], &wide, &entries, &sources).is_err());
    assert!(read_virtual_dataset(&[4], &dtype, &entries, &sources[..1]).is_err());
    let text = Dtype::String {
        fixed_len: None,
        charset: Charset::Utf8,
    };
    assert!(matches!(
        read_virtual_dataset(&[4], &text, &entries, &sources),
        Err(OxiH5Error::NotImplemented(_))
    ));
}

/// A description of a virtual dataset: all of `src`, then one element of it by a block,
/// then one by a pattern of each width.
fn mapping_block() -> Vec<u8> {
    let mut block = vec![0];
    block.extend_from_slice(&4u64.to_le_bytes());
    let all: Vec<u8> = [3u32, 1, 0, 0].iter().flat_map(|v| v.to_le_bytes()).collect();
    let one_block = |at: u32| -> Vec<u8> {
        [2u32, 1, 0, 0, 1, 1, at, at]
            .iter()
            .flat_map(|v| v.to_le_bytes())
            .collect()
    };
    let pattern = |at: u64| -> Vec<u8> {
        let mut bytes = vec![2, 0, 0, 0, 2, 0, 0, 0, 1, 0, 0, 0, 0, 1, 0, 0, 0];
        for v in [at, 1, 1, 1] {
            bytes.extend_from_slice(&v.to_le_bytes());
        }
        bytes
    };
    let narrow = |at: u16| -> Vec<u8> {
        let mut bytes = vec![2, 0, 0, 0, 3, 0, 0, 0, 1, 2, 1, 0, 0, 0];
        for v in [at, 1, 1, 1] {
            bytes.extend_from_slice(&v.to_le_bytes());
        }
        bytes
    };
    for (from, to) in [
        (all, {
            let mut first = pattern(0);
            first[17 + 16] = 3;
            first
        }),
        (one_block(2), one_block(3)),
        (pattern(1), pattern(4)),
        (narrow(0), narrow(5)),
    ] {
        block.extend_from_slice(b".\0src\0");
        block.extend_from_slice(&from);
        block.extend_from_slice(&to);
    }
    block.extend_from_slice(&[0; 4]);
    block
}

#[test]
fn virtual_datasets_are_described_in_the_file() {
    let mut writer = FileWriter::new();
    writer.write_dataset_u8("src", &[5, 6, 7], &[3]).unwrap();
    writer.write_dataset_u8("v", &[0; 7], &[7]).unwrap();
    let mut bytes = writer.build_to_vec().unwrap();
    // Make the layout message of `v`, whose data take 7 bytes, that of a virtual dataset.
    let size = 7u64.to_le_bytes();
    let at = (0..bytes.len() - 18)
        .find(|&i| bytes[i..i + 2] == [3, 1] && bytes[i + 10..i + 18] == size)
        .unwrap();
    let mut heap = GlobalHeapWriter::new();
    let index = heap.write_bytes(&mapping_block());
    let address = bytes.len() as u64;
    bytes[at] = 4;
    bytes[at + 1] = 3;
    bytes[at + 2..at + 10].copy_from_slice(&address.to_le_bytes());
    bytes[at + 10..at + 14].copy_from_slice(&index.to_le_bytes());
    bytes.extend_from_slice(&heap.build());

    let mut file = File::open_from_bytes(&bytes).unwrap();
    assert!(file.contains("v"));
    let ds = file.dataset("v").unwrap();
    assert_eq!(ds.data, vec![5, 6, 7, 7, 6, 5, 0]);
    assert_eq!(ds.shape, vec![7]);
    assert_eq!(file.dataset_slice("v", &[2..5]).unwrap().data, vec![7, 7, 6]);
    assert!(file.virtual_dataset("src").unwrap().is_none());
    let described = file.virtual_dataset("v").unwrap().unwrap();
    assert_eq!(described.entries.len(), 4);
    assert_eq!(described.entries[0].source_file, ".");
    let mut sources = Vec::new();
    for entry in &described.entries {
        sources.push(file.dataset(&entry.source_dataset).unwrap());
    }
    let ds = described.assemble(&sources).unwrap();
    assert_eq!(ds.shape, vec![7]);
    assert_eq!(ds.data, vec![5, 6, 7, 7, 6, 5, 0]);

    // A source in another file is not opened here.
    let at = address as usize + 16 + 16 + 9;
    assert_eq!(bytes[at..at + 2], *b".\0");
    let mut elsewhere = bytes.clone();
    elsewhere[at] = b'x';
    let mut file = File::open_from_bytes(&elsewhere).unwrap();
    assert!(matches!(file.dataset("v"), Err(OxiH5Error::NotImplemented(_))));
    assert_eq!(
        file.virtual_dataset("v").unwrap().unwrap().entries[0].source_file,
        "x"
    );
    // A source that is not there.
    let mut missing = bytes.clone();
    missing[at + 2] = b'S';
    let mut file = File::open_from_bytes(&missing).unwrap();
    assert!(matches!(file.dataset("v"), Err(OxiH5Error::NotFound(_))));
}

#[test]
fn descriptions_of_virtual_datasets_are_checked() {
    let block = mapping_block();
    assert_eq!(parse_mapping_block(&block, 8).unwrap().len(), 4);
    assert!(parse_mapping_block(&block[..5], 8).is_err());
    assert!(parse_mapping_block(&block[..30], 8).is_err());
    assert!(parse_mapping_block(&block, 9).is_err());
    let mut newer = block.clone();
    newer[0] = 1;
    assert!(parse_mapping_block(&newer, 8).is_err());
    // A selection of points.
    let mut points = block.clone();
    points[15] = 1;
    assert!(matches!(
        parse_mapping_block(&points, 8),
        Err(OxiH5Error::NotImplemented(_))
    ));
}

#[test]
fn filters_are_handed_to_the_decoder() {
    let pipeline = FilterPipeline {
        filters: vec![FilterInfo {
            id: 1,
            name: None,
            flags: 0,
            client_data: vec![6],
        }],
    };
    let flip = |raw: &[u8], p: &FilterPipeline, mask: u32, es: usize| {
        assert_eq!((p.filters.len(), mask, es), (1, 5, 2));
        Ok(raw.iter().rev().copied().collect())
    };
    assert_eq!(
        apply_filters_to_chunk(&[1, 2, 3], 5, Some(&pipeline), 2, &flip).unwrap(),
        vec![3, 2, 1]
    );
    assert!(matches!(
        apply_filters_to_chunk(&[1], 0, Some(&pipeline), 1, &apply_pipeline),
        Err(OxiH5Error::Corrupted(_))
    ));
}

/// A version 2 B-tree: its header at 0, its nodes behind it.
fn tree_v2(kind: u8, record_size: u16, depth: u16, root_count: u16, nodes: &[u8]) -> Vec<u8> {
    let mut tree = b"BTHD".to_vec();
    tree.extend_from_slice(&[0, kind]);
    tree.extend_from_slice(&512u32.to_le_bytes());
    tree.extend_from_slice(&record_size.to_le_bytes());
    tree.extend_from_slice(&depth.to_le_bytes());
    tree.extend_from_slice(&[100, 40]);
    tree.extend_from_slice(&38u64.to_le_bytes());
    tree.extend_from_slice(&root_count.to_le_bytes());
    tree.extend_from_slice(&3u64.to_le_bytes());
    tree.extend_from_slice(&[0; 4]);
    assert_eq!(tree.len(), 38);
    tree.extend_from_slice(nodes);
    tree
}

fn node_v2(tag: &[u8; 4], kind: u8, records: &[Vec<u8>], pointers: &[u8]) -> Vec<u8> {
    let mut node = tag.to_vec();
    node.extend_from_slice(&[0, kind]);
    for record in records {
        node.extend_from_slice(record);
    }
    node.extend_from_slice(pointers);
    node.extend_from_slice(&[0; 4]);
    node
}

fn plain_chunk(address: u64, at: u64) -> Vec<u8> {
    let mut record = address.to_le_bytes().to_vec();
    record.extend_from_slice(&at.to_le_bytes());
    record
}

#[test]
fn version_2_trees_of_chunks_are_read() {
    // The root has one record and two leaves; chunks of two bytes each.
    let left = node_v2(b"BTLF", 10, &[plain_chunk(400, 0)], &[]);
    let right = node_v2(b"BTLF", 10, &[plain_chunk(404, 2)], &[]);
    let mut pointers = Vec::new();
    for address in [200u64, 300] {
        pointers.extend_from_slice(&address.to_le_bytes());
        pointers.push(1);
    }
    let root = node_v2(b"BTIN", 10, &[plain_chunk(402, 1)], &pointers);
    let mut file = tree_v2(10, 16, 1, 1, &root);
    file.resize(200, 0);
    file.extend_from_slice(&left);
    file.resize(300, 0);
    file.extend_from_slice(&right);
    file.resize(400, 0);
    file.extend_from_slice(&[1, 2, 3, 4, 5, 6]);

    let records = resolve_chunk_index(&file, ChunkIndex::BTreeV2, 0, 1).unwrap();
    let places: Vec<(u64, u64)> = records.iter().map(|r| (r.address, r.offsets[0])).collect();
    assert_eq!(places, vec![(400, 0), (402, 1), (404, 2)]);
    let layout = LayoutInfo::Chunked {
        data_address: 0,
        dimensionality: 2,
        chunk_dims: vec![2, 1],
        index_type: 3,
    };
    let pipeline = FilterPipeline { filters: vec![] };
    let mut cache = ChunkIndexCache::new();
    let data =
        read_chunked(&file, &layout, &pipeline, &[5], 1, &mut cache, &apply_pipeline).unwrap();
    assert_eq!(data, vec![1, 2, 3, 4, 5]);
    // Another kind of records, and no tree.
    let mut other = file.clone();
    other[5] = 5;
    assert!(resolve_chunk_index(&other, ChunkIndex::BTreeV2, 0, 1).is_err());
    assert!(resolve_chunk_index(&[0u8; 64], ChunkIndex::BTreeV2, 0, 1).is_err());
}

#[test]
fn version_2_trees_say_how_chunks_are_filtered() {
    let stored = compress(&[9, 9, 9, 9], 6).unwrap();
    let mut record = 100u64.to_le_bytes().to_vec();
    record.push(stored.len() as u8);
    record.extend_from_slice(&0u32.to_le_bytes());
    record.extend_from_slice(&0u64.to_le_bytes());
    let mut file = tree_v2(11, 21, 0, 1, &node_v2(b"BTLF", 11, &[record], &[]));
    file.resize(100, 0);
    file.extend_from_slice(&stored);
    let layout = LayoutInfo::Chunked {
        data_address: 0,
        dimensionality: 2,
        chunk_dims: vec![4, 1],
        index_type: 3,
    };
    let pipeline = FilterPipeline {
        filters: vec![filter(1, &[6])],
    };
    let mut cache = ChunkIndexCache::new();
    let data =
        read_chunked(&file, &layout, &pipeline, &[4], 1, &mut cache, &apply_pipeline).unwrap();
    assert_eq!(data, vec![9, 9, 9, 9]);
}

fn filter(id: u16, client_data: &[u32]) -> FilterInfo {
    FilterInfo {
        id,
        name: None,
        flags: 0,
        client_data: client_data.to_vec(),
    }
}

#[test]
fn filters_are_undone_in_reverse() {
    // Two elements of two bytes, their bytes sorted by place.
    let pipeline = FilterPipeline {
        filters: vec![filter(2, &[2])],
    };
    assert_eq!(
        apply_pipeline(&[1, 3, 2, 4, 9], &pipeline, 0, 2).unwrap(),
        vec![1, 2, 3, 4, 9]
    );
    // Shuffled, compressed, and with a checksum.
    let packed = compress(&[1, 3, 2, 4], 9).unwrap();
    let mut stored = packed.clone();
    stored.extend_from_slice(&fletcher32(&packed).to_le_bytes());
    let pipeline = FilterPipeline {
        filters: vec![filter(2, &[2]), filter(1, &[9]), filter(3, &[])],
    };
    assert_eq!(apply_pipeline(&stored, &pipeline, 0, 2).unwrap(), vec![1, 2, 3, 4]);
    // Without the first filter.
    assert_eq!(apply_pipeline(&stored, &pipeline, 1, 2).unwrap(), vec![1, 3, 2, 4]);
    stored[0] ^= 1;
    assert!(matches!(
        apply_pipeline(&stored, &pipeline, 0, 2),
        Err(OxiH5Error::Corrupted(_))
    ));
    let unknown = FilterPipeline {
        filters: vec![filter(300, &[])],
    };
    assert!(matches!(
        apply_pipeline(&[1], &unknown, 0, 1),
        Err(OxiH5Error::UnsupportedFilter(_))
    ));
    assert!(matches!(compress(&[1], 10), Err(OxiH5Error::Format(_))));
}

#[test]
fn fletcher_checksums_have_their_values() {
    // The words 258 and 772, and 258, 772 and 1280.
    assert_eq!(fletcher32(&[1, 2, 3, 4]), 1288 * 65536 + 1030);
    assert_eq!(fletcher32(&[1, 2, 3, 4, 5]), (1288 + 2310) * 65536 + 2310);
    assert_eq!(fletcher32(&[]), 0);
    assert_eq!(fletcher32(&[0xff, 0xff]), 65535 * 65536 + 65535);
}

#[test]
fn fill_values_are_parsed() {
    assert_eq!(parse_fill_value(&[2, 2, 2, 1, 2, 0, 0, 0, 7, 8]).unwrap(), vec![7, 8]);
    assert!(parse_fill_value(&[2, 2, 2, 0]).unwrap().is_empty());
    assert_eq!(parse_fill_value(&[3, 0x20, 1, 0, 0, 0, 5]).unwrap(), vec![5]);
    assert!(parse_fill_value(&[3, 0x0a]).unwrap().is_empty());
    assert!(parse_fill_value(&[2, 2, 2, 1, 3, 0, 0, 0, 7]).is_err());
    assert!(parse_fill_value(&[9, 0]).is_err());
}

#[test]
fn parts_of_missing_chunks_are_the_fill_value() {
    let layout = LayoutInfo::Chunked {
        data_address: u64::MAX,
        dimensionality: 2,
        chunk_dims: vec![4, 2],
        index_type: 0,
    };
    let pipeline = FilterPipeline { filters: vec![] };
    let read = |fill_value: &[u8]| {
        read_chunked_slice_filled(
            &[],
            &layout,
            &pipeline,
            &[8],
            ChunkSliceParams {
                elem_size: 2,
                fill_value,
            },
            &[2..5],
            &mut ChunkIndexCache::new(),
            &apply_pipeline,
        )
        .unwrap()
    };
    assert_eq!(read(&[7, 8]), vec![7, 8, 7, 8, 7, 8]);
    assert_eq!(read(&[]), vec![0; 6]);
    assert_eq!(read(&[1]), vec![0; 6]);
}

/// A header of a chunked dataset of eight bytes without chunks, with a fill value.
fn sparse_header() -> Vec<u8> {
    let mut space = vec![1u8, 1, 0, 0, 0, 0, 0, 0];
    space.extend_from_slice(&8u64.to_le_bytes());
    let dtype = vec![0x10u8, 0, 0, 0, 1, 0, 0, 0, 0, 0, 8, 0, 0, 0, 0, 0];
    let fill = vec![2u8, 2, 2, 1, 1, 0, 0, 0, 42, 0, 0, 0, 0, 0, 0, 0];
    let mut layout = vec![3u8, 2, 2];
    layout.extend_from_slice(&u64::MAX.to_le_bytes());
    layout.extend_from_slice(&4u32.to_le_bytes());
    layout.extend_from_slice(&1u32.to_le_bytes());
    layout.resize(24, 0);
    let mut body = Vec::new();
    for (kind, data) in [(1u16, space), (3, dtype), (5, fill), (8, layout)] {
        body.extend_from_slice(&kind.to_le_bytes());
        body.extend_from_slice(&(data.len() as u16).to_le_bytes());
        body.extend_from_slice(&[0; 4]);
        body.extend_from_slice(&data);
    }
    let mut header = vec![1u8, 0, 4, 0, 1, 0, 0, 0];
    header.extend_from_slice(&(body.len() as u32).to_le_bytes());
    header.extend_from_slice(&[0; 4]);
    header.extend_from_slice(&body);
    header
}

#[test]
fn partial_reads_give_the_fill_value() {
    let file = sparse_header();
    let mut cache = ChunkIndexCache::new();
    let part = slice_dataset_at_header(&file, 0, "s", &[1..4], &mut cache, &apply_pipeline).unwrap();
    assert_eq!(part.data, vec![42, 42, 42]);
    let every_third = Hyperslab {
        dims: vec![DimSelection {
            start: 0,
            stride: 3,
            count: 2,
            block: 1,
        }],
    };
    let part =
        hyperslab_dataset_at_header(&file, 0, "s", &every_third, &mut cache, &apply_pipeline)
            .unwrap();
    assert_eq!(part.data, vec![42, 42]);
    // A whole read gives zeros.
    let whole =
        read_dataset_from_object_header(&file, 0, "s", &mut cache, &apply_pipeline).unwrap();
    assert_eq!(whole.data, vec![0; 8]);
}

#[test]
fn values_are_copied_in_depth() {
    let v = Value::Compound(vec![
        ("a".to_string(), Value::Sequence(vec![Value::Int(1), Value::Str("x".to_string())])),
        ("b".to_string(), Value::Opaque(vec![1, 2])),
    ]);
    assert_eq!(v.clone(), v);
}

#[test]
fn errors_and_types_are_described() {
    assert_eq!(OxiH5Error::UnsupportedLayout(7).message(), "unsupported data layout class: 7");
    assert_eq!(OxiH5Error::Io("gone".to_string()).message(), "I/O error: gone");
    assert_eq!(OxiH5Error::NotFound("x".to_string()).message(), "dataset not found: x");
    assert_eq!(OxiH5Error::DataTruncated.message(), "data buffer truncated");
    let ds = Dataset {
        data: vec![0u8; 3],
        shape: vec![1],
        dtype: Dtype::Int {
            size: 4,
            signed: true,
            order: ByteOrder::Little,
        },
        attributes: vec![],
    };
    assert!(matches!(ds.as_i32(), Err(OxiH5Error::DataTruncated)));
}
