//! Files: writing them and reading them back.

use oxih5::links::{resolve_soft_link_target, resolve_soft_link_to_header, SoftTarget};
use oxih5::message::parse_dataspace;
use oxih5::{File, FileWriter, OxiH5Error};

fn bits32(values: &[f32]) -> Vec<u32> {
    values.iter().map(|v| v.to_bits()).collect()
}

fn bits64(values: &[f64]) -> Vec<u64> {
    values.iter().map(|v| v.to_bits()).collect()
}

fn singles(bits: &[u32]) -> Vec<f32> {
    bits.iter().map(|b| f32::from_bits(*b)).collect()
}

fn doubles(bits: &[u64]) -> Vec<f64> {
    bits.iter().map(|b| f64::from_bits(*b)).collect()
}

#[test]
fn test_parse_dataspace_with_max_dims() {
    // A version 1 body with the flag that largest extents are there:
    // dims [10, 20], largest [u64::MAX, 50].
    let mut body = vec![0u8; 8 + 8 * 2 + 8 * 2];
    body[0] = 1;
    body[1] = 2;
    body[2] = 0x01;
    body[8..16].copy_from_slice(&10u64.to_le_bytes());
    body[16..24].copy_from_slice(&20u64.to_le_bytes());
    body[24..32].copy_from_slice(&u64::MAX.to_le_bytes());
    body[32..40].copy_from_slice(&50u64.to_le_bytes());

    let dsp = parse_dataspace(&body).expect("parse_dataspace failed");
    assert_eq!(dsp.dims, vec![10u64, 20u64]);
    assert_eq!(dsp.max_dims, Some(vec![u64::MAX, 50u64]));
}

#[test]
fn test_parse_dataspace_without_max_dims() {
    let mut body = vec![0u8; 8 + 8];
    body[0] = 1;
    body[1] = 1;
    body[2] = 0x00;
    body[8..16].copy_from_slice(&42u64.to_le_bytes());

    let dsp = parse_dataspace(&body).expect("parse_dataspace failed");
    assert_eq!(dsp.dims, vec![42u64]);
    assert!(dsp.max_dims.is_none());
}

#[test]
fn test_attrs_of_returns_empty_when_no_attrs() {
    let bytes = FileWriter::new()
        .write_dataset_f32("mydata", &bits32(&[1.0f32, 2.0, 3.0]), &[3])
        .expect("write_dataset_f32")
        .build_to_vec()
        .expect("build");

    let file = File::open_from_bytes(&bytes).expect("open");
    let addr = file.header_addr_of("mydata").expect("resolve header addr");

    let attrs = file.attrs_of(addr).expect("attrs_of");
    assert!(
        attrs.is_empty(),
        "no attrs were written; expected empty, got {:?}",
        attrs.iter().map(|a| &a.name).collect::<Vec<_>>()
    );
}

#[test]
fn test_attrs_of_undefined_ref_returns_not_found() {
    let start = [0x89u8, 0x48, 0x44, 0x46, 0x0d, 0x0a, 0x1a, 0x0a];
    let file = File::open_from_bytes(&start).unwrap();
    // The address is looked at before anything is parsed.
    let result = file.attrs_of(u64::MAX);
    assert!(
        matches!(result, Err(OxiH5Error::NotFound(_))),
        "expected NotFound for u64::MAX, got {:?}",
        result
    );
}

#[test]
fn test_soft_link_cycle_detection() {
    let file_data = vec![0u8; 64];
    let mut visited = vec!["/cyclic".to_string()];

    let result = resolve_soft_link_to_header(&file_data, 0, "/cyclic", &mut visited);
    assert!(result.is_err(), "expected cycle-detection error, got Ok");
    let err_str = result.unwrap_err().message();
    assert!(
        err_str.contains("cycle"),
        "error message should mention 'cycle', got: {err_str}"
    );
}

#[test]
fn test_soft_link_empty_path_returns_root() {
    let file_data = vec![0u8; 64];
    let mut visited: Vec<String> = Vec::new();
    let root_addr = 42u64;
    let result = resolve_soft_link_to_header(&file_data, root_addr, "", &mut visited);
    assert_eq!(result.unwrap(), root_addr);
    let mut visited: Vec<String> = Vec::new();
    assert!(matches!(
        resolve_soft_link_target(&file_data, root_addr, "/", &mut visited),
        Ok(SoftTarget::Local(42))
    ));
}

#[test]
fn test_write_read_f32_1d() {
    let bytes = FileWriter::new()
        .write_dataset_f32("data", &bits32(&[1.0f32, 2.0, 3.0, 4.0, 5.0]), &[5])
        .unwrap()
        .build_to_vec()
        .unwrap();

    let mut file = File::open_from_bytes(&bytes).unwrap();
    let ds = file.dataset("data").unwrap();
    assert_eq!(ds.shape, vec![5]);
    let vals = singles(&ds.as_f32().unwrap());
    assert_eq!(vals, vec![1.0f32, 2.0, 3.0, 4.0, 5.0]);
}

#[test]
fn test_write_read_f64_1d() {
    let bytes = FileWriter::new()
        .write_dataset_f64("temps", &bits64(&[0.1f64, 0.2, 0.3]), &[3])
        .unwrap()
        .build_to_vec()
        .unwrap();

    let mut file = File::open_from_bytes(&bytes).unwrap();
    let vals = doubles(&file.dataset("temps").unwrap().as_f64().unwrap());
    assert_eq!(vals.len(), 3);
    assert!((vals[0] - 0.1).abs() < 1e-10);
    assert!((vals[2] - 0.3).abs() < 1e-10);
}

#[test]
fn test_write_read_i32_1d() {
    let bytes = FileWriter::new()
        .write_dataset_i32("ints", &[-1i32, 0, 1, 100, -100], &[5])
        .unwrap()
        .build_to_vec()
        .unwrap();

    let mut file = File::open_from_bytes(&bytes).unwrap();
    let vals = file.dataset("ints").unwrap().as_i32().unwrap();
    assert_eq!(vals, vec![-1i32, 0, 1, 100, -100]);
}

#[test]
fn test_write_read_i64_1d() {
    let bytes = FileWriter::new()
        .write_dataset_i64("longs", &[i64::MIN, -1, 0, 1, i64::MAX], &[5])
        .unwrap()
        .build_to_vec()
        .unwrap();

    let mut file = File::open_from_bytes(&bytes).unwrap();
    let vals = file.dataset("longs").unwrap().as_i64().unwrap();
    assert_eq!(vals, vec![i64::MIN, -1i64, 0, 1, i64::MAX]);
}

#[test]
fn test_write_read_u8_1d() {
    let bytes = FileWriter::new()
        .write_dataset_u8("bytes", &[0u8, 127, 255], &[3])
        .unwrap()
        .build_to_vec()
        .unwrap();

    let mut file = File::open_from_bytes(&bytes).unwrap();
    let vals = file.dataset("bytes").unwrap().as_u8().unwrap();
    assert_eq!(vals, vec![0u8, 127, 255]);
}

#[test]
fn test_write_read_multiple_datasets() {
    let bytes = FileWriter::new()
        .write_dataset_f32("x", &bits32(&[1.0f32, 2.0]), &[2])
        .unwrap()
        .write_dataset_i32("y", &[10i32, 20], &[2])
        .unwrap()
        .build_to_vec()
        .unwrap();

    let mut file = File::open_from_bytes(&bytes).unwrap();
    assert_eq!(
        singles(&file.dataset("x").unwrap().as_f32().unwrap()),
        vec![1.0f32, 2.0]
    );
    assert_eq!(
        file.dataset("y").unwrap().as_i32().unwrap(),
        vec![10i32, 20]
    );
}

#[test]
fn test_write_read_2d_f64() {
    let data: Vec<f64> = (0..6).map(|x| x as f64).collect();
    let bytes = FileWriter::new()
        .write_dataset_f64("matrix", &bits64(&data), &[2, 3])
        .unwrap()
        .build_to_vec()
        .unwrap();

    let mut file = File::open_from_bytes(&bytes).unwrap();
    let ds = file.dataset("matrix").unwrap();
    assert_eq!(ds.shape, vec![2, 3]);
    let vals = doubles(&ds.as_f64().unwrap());
    assert_eq!(vals.len(), 6);
    assert_eq!(vals[3], 3.0);
}

#[test]
fn test_write_capacity_exceeded() {
    let mut writer = FileWriter::new();
    for i in 0..8usize {
        writer
            .write_dataset_f32(&format!("d{i}"), &bits32(&[1.0f32]), &[1])
            .unwrap();
    }
    assert!(
        writer
            .write_dataset_f32("overflow", &bits32(&[1.0f32]), &[1])
            .is_err(),
        "9th dataset should return an error"
    );
}

#[test]
fn test_write_dataset_names() {
    let bytes = FileWriter::new()
        .write_dataset_f32("alpha", &bits32(&[1.0f32]), &[1])
        .unwrap()
        .write_dataset_i32("beta", &[2i32], &[1])
        .unwrap()
        .build_to_vec()
        .unwrap();

    let file = File::open_from_bytes(&bytes).unwrap();
    let names = file.dataset_names().unwrap();
    assert!(
        names.contains(&"alpha".to_string()),
        "expected 'alpha', got {names:?}"
    );
    assert!(
        names.contains(&"beta".to_string()),
        "expected 'beta', got {names:?}"
    );
}

#[test]
fn test_write_empty_name_rejected() {
    let mut writer = FileWriter::new();
    let result = writer.write_dataset_f32("", &bits32(&[1.0f32]), &[1]);
    assert!(result.is_err(), "empty name should be rejected");
}

#[test]
fn test_write_slash_in_name_rejected() {
    let mut writer = FileWriter::new();
    let result = writer.write_dataset_f32("a/b", &bits32(&[1.0f32]), &[1]);
    assert!(result.is_err(), "name containing '/' should be rejected");
}

#[test]
fn test_write_duplicate_name_rejected() {
    let mut writer = FileWriter::new();
    writer
        .write_dataset_f32("same", &bits32(&[1.0f32]), &[1])
        .unwrap();
    let result = writer.write_dataset_f32("same", &bits32(&[2.0f32]), &[1]);
    assert!(result.is_err(), "duplicate dataset name should be rejected");
}

#[test]
fn test_filewriter_default() {
    let mut writer = FileWriter::default();
    writer
        .write_dataset_u8("pixels", &[10u8, 20, 30], &[3])
        .unwrap();
    let bytes = writer.build_to_vec().unwrap();

    let mut file = File::open_from_bytes(&bytes).unwrap();
    assert_eq!(
        file.dataset("pixels").unwrap().as_u8().unwrap(),
        vec![10u8, 20, 30]
    );
}

#[test]
fn test_write_empty_file() {
    let bytes = FileWriter::new().build_to_vec().unwrap();
    let file = File::open_from_bytes(&bytes).unwrap();
    let names = file.dataset_names().unwrap();
    assert!(names.is_empty(), "expected no datasets, got {names:?}");
}

#[test]
fn test_write_eight_datasets() {
    let mut writer = FileWriter::new();
    for i in 0..8usize {
        let val = i as f32;
        writer
            .write_dataset_f32(&format!("ds{i:02}"), &bits32(&[val]), &[1])
            .unwrap();
    }
    let bytes = writer.build_to_vec().unwrap();

    let mut file = File::open_from_bytes(&bytes).unwrap();
    for i in 0..8usize {
        let ds = file.dataset(&format!("ds{i:02}")).unwrap();
        let vals = singles(&ds.as_f32().unwrap());
        assert_eq!(vals.len(), 1);
        assert!(
            (vals[0] - i as f32).abs() < 1e-6,
            "ds{i:02}: expected {}, got {}",
            i as f32,
            vals[0]
        );
    }
}
