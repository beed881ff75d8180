//! Groups that keep their links as messages in object headers of version 2.

use oxih5::links::{resolve_soft_link_target, SoftTarget};
use oxih5::{File, GroupTarget, OxiH5Error};

/// The header of a superblock of version 2 with the root group at 48.
fn superblock() -> Vec<u8> {
    let mut sb = vec![0x89u8, 0x48, 0x44, 0x46, 0x0d, 0x0a, 0x1a, 0x0a, 2, 8, 8, 0];
    sb.extend_from_slice(&0u64.to_le_bytes());
    sb.extend_from_slice(&u64::MAX.to_le_bytes());
    sb.extend_from_slice(&0u64.to_le_bytes());
    sb.extend_from_slice(&48u64.to_le_bytes());
    sb.extend_from_slice(&[0u8; 4]);
    assert_eq!(sb.len(), 48);
    sb
}

fn message(kind: u8, body: &[u8]) -> Vec<u8> {
    let mut m = vec![kind];
    m.extend_from_slice(&(body.len() as u16).to_le_bytes());
    m.push(0);
    m.extend_from_slice(body);
    m
}

fn header(messages: &[Vec<u8>]) -> Vec<u8> {
    let body: Vec<u8> = messages.concat();
    let mut h = b"OHDR".to_vec();
    h.push(2);
    h.push(1); // the size of the first block has two bytes
    h.extend_from_slice(&(body.len() as u16).to_le_bytes());
    h.extend_from_slice(&body);
    h.extend_from_slice(&[0u8; 4]);
    h
}

fn link_info() -> Vec<u8> {
    let mut body = vec![0u8, 0];
    body.extend_from_slice(&u64::MAX.to_le_bytes());
    body.extend_from_slice(&u64::MAX.to_le_bytes());
    message(2, &body)
}

fn link_start(name: &str, kind: u8) -> Vec<u8> {
    let mut body = vec![1u8, 8, kind, name.len() as u8];
    body.extend_from_slice(name.as_bytes());
    body
}

fn hard(name: &str, address: u64) -> Vec<u8> {
    let mut body = link_start(name, 0);
    body.extend_from_slice(&address.to_le_bytes());
    message(6, &body)
}

fn soft(name: &str, path: &str) -> Vec<u8> {
    let mut body = link_start(name, 1);
    body.extend_from_slice(&(path.len() as u16).to_le_bytes());
    body.extend_from_slice(path.as_bytes());
    message(6, &body)
}

fn external(name: &str, file: &str, path: &str) -> Vec<u8> {
    let mut body = link_start(name, 64);
    body.extend_from_slice(&((file.len() + path.len() + 3) as u16).to_le_bytes());
    body.push(0);
    body.extend_from_slice(file.as_bytes());
    body.push(0);
    body.extend_from_slice(path.as_bytes());
    body.push(0);
    message(6, &body)
}

fn tiny_dataset() -> Vec<u8> {
    let mut space = vec![2u8, 1, 0, 1];
    space.extend_from_slice(&3u64.to_le_bytes());
    let dtype = [0x10u8, 0, 0, 0, 1, 0, 0, 0, 0, 0, 8, 0];
    let layout = [3u8, 0, 3, 0, 7, 8, 9];
    header(&[message(1, &space), message(3, &dtype), message(8, &layout)])
}

const DATASET: u64 = 512;
const GROUP: u64 = 640;

fn sample() -> Vec<u8> {
    let root = header(&[
        link_info(),
        hard("data", DATASET),
        hard("sub", GROUP),
        soft("alias", "/sub/inner"),
        soft("chain", "alias"),
        soft("loop", "/pool"),
        soft("pool", "/loop"),
        soft("lost", "/nowhere"),
        soft("away", "far"),
        external("far", "other.h5", "/x/y"),
    ]);
    let sub = header(&[link_info(), hard("inner", DATASET), soft("up", "/sub")]);
    let mut file = superblock();
    file.extend_from_slice(&root);
    assert!(file.len() <= DATASET as usize);
    file.resize(DATASET as usize, 0);
    file.extend_from_slice(&tiny_dataset());
    assert!(file.len() <= GROUP as usize);
    file.resize(GROUP as usize, 0);
    file.extend_from_slice(&sub);
    file.resize(file.len() + 16, 0);
    file
}

#[test]
fn hard_and_soft_links_lead_to_datasets() {
    let bytes = sample();
    let mut file = File::open_from_bytes(&bytes).unwrap();
    for path in ["data", "/sub/inner", "alias", "chain", "sub/up/inner"] {
        assert_eq!(file.dataset(path).unwrap().data, vec![7, 8, 9], "{path}");
    }
    assert!(matches!(file.dataset("none"), Err(OxiH5Error::NotFound(_))));
    assert!(matches!(file.dataset("lost"), Err(OxiH5Error::NotFound(_))));
}

#[test]
fn cycles_of_soft_links_are_refused() {
    let bytes = sample();
    let mut file = File::open_from_bytes(&bytes).unwrap();
    let err = file.dataset("loop").unwrap_err();
    assert!(matches!(err, OxiH5Error::Format(_)));
    assert!(err.message().contains("cycle"));
}

#[test]
fn external_links_are_reported() {
    let bytes = sample();
    let mut file = File::open_from_bytes(&bytes).unwrap();
    match file.locate_dataset("far").unwrap() {
        SoftTarget::External { file, path } => {
            assert_eq!(file, "other.h5");
            assert_eq!(path, "/x/y");
        }
        SoftTarget::Local(_) => panic!("expected another file"),
    }
    // Through a soft link as well.
    assert!(matches!(
        file.locate_dataset("away"),
        Ok(SoftTarget::External { .. })
    ));
    assert!(matches!(
        file.dataset("far"),
        Err(OxiH5Error::NotImplemented(_))
    ));
    assert!(matches!(
        file.dataset("far/x"),
        Err(OxiH5Error::NotImplemented(_))
    ));
    match file.root().unwrap().group("far").unwrap() {
        GroupTarget::Elsewhere { file, path } => {
            assert_eq!((file.as_str(), path.as_str()), ("other.h5", "/x/y"));
        }
        GroupTarget::Here(_) => panic!("expected another file"),
    }
    let mut visited: Vec<String> = Vec::new();
    assert!(matches!(
        resolve_soft_link_target(&bytes, 48, "/far/x", &mut visited),
        Err(OxiH5Error::NotImplemented(_))
    ));
    assert_eq!(visited, vec!["/far/x".to_string()]);
}

#[test]
fn link_groups_list_their_members() {
    let bytes = sample();
    let file = File::open_from_bytes(&bytes).unwrap();
    let root = file.root().unwrap();
    assert!(root.new_style);
    assert_eq!(
        root.datasets().unwrap(),
        vec!["data".to_string(), "alias".to_string(), "chain".to_string()]
    );
    assert_eq!(root.groups().unwrap(), vec!["sub".to_string()]);
    let sub = file.group("sub").unwrap();
    assert_eq!(sub.datasets().unwrap(), vec!["inner".to_string()]);
    assert_eq!(sub.groups().unwrap(), vec!["up".to_string()]);
}

#[test]
fn only_hard_links_give_header_addresses() {
    let bytes = sample();
    let mut file = File::open_from_bytes(&bytes).unwrap();
    assert_eq!(file.header_addr_of("sub/inner").unwrap(), DATASET);
    assert!(matches!(
        file.header_addr_of("alias"),
        Err(OxiH5Error::NotImplemented(_))
    ));
    assert_eq!(file.dataset_slice("data", &[1..3]).unwrap().data, vec![8, 9]);
}

#[test]
fn unknown_header_versions_are_refused() {
    let mut bytes = sample();
    bytes[DATASET as usize + 4] = 3;
    let mut file = File::open_from_bytes(&bytes).unwrap();
    assert!(matches!(
        file.dataset("data"),
        Err(OxiH5Error::UnsupportedHeader(3))
    ));
    bytes[DATASET as usize] = b'X';
    let mut file = File::open_from_bytes(&bytes).unwrap();
    assert!(matches!(
        file.dataset("data"),
        Err(OxiH5Error::UnsupportedHeader(b'X'))
    ));
}

#[test]
fn layouts_and_types_that_are_not_known_are_refused() {
    let bytes = sample();
    let start = DATASET as usize + 8;
    // Space: 4 + 12, type: 4 + 12, layout from there on.
    let mut changed = bytes.clone();
    changed[start + 32 + 4 + 1] = 9;
    let mut file = File::open_from_bytes(&changed).unwrap();
    assert!(matches!(
        file.dataset("data"),
        Err(OxiH5Error::UnsupportedLayout(9))
    ));
    let mut changed = bytes.clone();
    changed[start + 16 + 4] = 0x12;
    let mut file = File::open_from_bytes(&changed).unwrap();
    assert!(matches!(
        file.dataset("data"),
        Err(OxiH5Error::UnsupportedDatatype(2))
    ));
}

/// A file whose root group keeps its links in a fractal heap: a direct block at 400 with
/// 64 bytes, or an indirect block at 600 that leads to it.
fn heap_sample(indirect: bool) -> Vec<u8> {
    let mut info = vec![0u8, 0];
    info.extend_from_slice(&128u64.to_le_bytes());
    info.extend_from_slice(&300u64.to_le_bytes());
    let mut file = superblock();
    file.extend_from_slice(&header(&[message(2, &info)]));
    assert!(file.len() <= 128);
    file.resize(128, 0);
    let mut heap = b"FRHP".to_vec();
    heap.push(0);
    heap.extend_from_slice(&7u16.to_le_bytes());
    heap.extend_from_slice(&[0, 0, 0]);
    heap.extend_from_slice(&64u32.to_le_bytes());
    heap.resize(110, 0);
    heap.extend_from_slice(&4u16.to_le_bytes());
    heap.extend_from_slice(&64u64.to_le_bytes());
    heap.extend_from_slice(&1024u64.to_le_bytes());
    heap.extend_from_slice(&32u16.to_le_bytes());
    heap.extend_from_slice(&1u16.to_le_bytes());
    let (root, rows) = if indirect { (600u64, 1u16) } else { (400, 0) };
    heap.extend_from_slice(&root.to_le_bytes());
    heap.extend_from_slice(&rows.to_le_bytes());
    heap.extend_from_slice(&[0; 4]);
    assert_eq!(heap.len(), 146);
    file.extend_from_slice(&heap);
    file.resize(300, 0);
    // The objects lie at 20 and 40 of the heap; in the second block with `indirect`.
    let base: u32 = if indirect { 64 } else { 0 };
    let data = [&link_start("data", 0)[..], &DATASET.to_le_bytes()[..]].concat();
    let alias = [&link_start("alias", 1)[..], &5u16.to_le_bytes()[..], b"/data"].concat();
    let mut records = Vec::new();
    for (off, len) in [(20u32, data.len()), (40, alias.len())] {
        records.extend_from_slice(&[0; 5]);
        records.extend_from_slice(&(base + off).to_le_bytes());
        records.push(len as u8);
        records.push(0);
    }
    let mut tree = b"BTHD".to_vec();
    tree.extend_from_slice(&[0, 5]);
    tree.extend_from_slice(&512u32.to_le_bytes());
    tree.extend_from_slice(&11u16.to_le_bytes());
    tree.extend_from_slice(&[0, 0, 100, 40]);
    tree.extend_from_slice(&340u64.to_le_bytes());
    tree.extend_from_slice(&2u16.to_le_bytes());
    tree.extend_from_slice(&2u64.to_le_bytes());
    tree.extend_from_slice(&[0; 4]);
    file.extend_from_slice(&tree);
    file.resize(340, 0);
    file.extend_from_slice(b"BTLF");
    file.extend_from_slice(&[0, 5]);
    file.extend_from_slice(&records);
    file.resize(400, 0);
    file.extend_from_slice(b"FHDB");
    file.resize(420, 0);
    file.extend_from_slice(&data);
    file.resize(440, 0);
    file.extend_from_slice(&alias);
    file.resize(DATASET as usize, 0);
    file.extend_from_slice(&tiny_dataset());
    assert!(file.len() <= 600);
    file.resize(600, 0);
    file.extend_from_slice(b"FHIB");
    file.push(0);
    file.extend_from_slice(&128u64.to_le_bytes());
    file.extend_from_slice(&[0; 4]);
    file.extend_from_slice(&u64::MAX.to_le_bytes());
    file.extend_from_slice(&400u64.to_le_bytes());
    file.resize(file.len() + 32, 0);
    file
}

#[test]
fn links_in_fractal_heaps_are_followed() {
    for indirect in [false, true] {
        let bytes = heap_sample(indirect);
        let mut file = File::open_from_bytes(&bytes).unwrap();
        assert_eq!(file.dataset("data").unwrap().data, vec![7, 8, 9]);
        assert_eq!(file.dataset("alias").unwrap().data, vec![7, 8, 9]);
        assert!(matches!(file.dataset("none"), Err(OxiH5Error::NotFound(_))));
        assert_eq!(
            file.dataset_names().unwrap(),
            vec!["data".to_string(), "alias".to_string()]
        );
    }
    // With filters, without a tag, and with objects of another kind.
    let mut bytes = heap_sample(false);
    bytes[128 + 7] = 1;
    let mut file = File::open_from_bytes(&bytes).unwrap();
    assert!(matches!(
        file.dataset("data"),
        Err(OxiH5Error::NotImplemented(_))
    ));
    let mut bytes = heap_sample(false);
    bytes[400] = b'X';
    let mut file = File::open_from_bytes(&bytes).unwrap();
    assert!(matches!(file.dataset("data"), Err(OxiH5Error::Format(_))));
    let mut bytes = heap_sample(false);
    bytes[346 + 4] = 0x10;
    let mut file = File::open_from_bytes(&bytes).unwrap();
    assert!(matches!(
        file.dataset("data"),
        Err(OxiH5Error::NotImplemented(_))
    ));
}
