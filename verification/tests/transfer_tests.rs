use everytree::model::{synthetic, Builder};
use everytree::transfer::{read_dataset, read_string, read_u64, write_dataset, write_string, write_u64, Fault};
use std::sync::atomic::AtomicBool;

#[test]
fn transfer_handles_empty_index_and_rejects_invalid_directory_metadata() {
    let mut data = Builder::default()
        .finish(&AtomicBool::new(false), |_, _, _| {})
        .unwrap();
    let mut encoded = Vec::new();
    write_dataset(&mut encoded, &data);
    let (copy, _) = read_dataset(&encoded, 0).unwrap();
    assert_eq!(copy.file_count(0), 0);
    assert_eq!(copy.folder_count(), 0);
    assert!(copy.child_ids(0).is_empty());
    encoded[..4].copy_from_slice(b"ETR2");
    assert!(read_dataset(&encoded, 0).is_err());

    data.nodes[0].directory = u32::MAX;
    encoded.clear();
    write_dataset(&mut encoded, &data);
    assert!(read_dataset(&encoded, 0).is_err());
    data.nodes[0].directory = 0;
    data.directories[0].child_count = 1;
    encoded.clear();
    write_dataset(&mut encoded, &data);
    assert!(read_dataset(&encoded, 0).is_err());
}

#[test]
fn transfer_preserves_hierarchy_and_rejects_truncation() {
    let data = synthetic(500, false, &AtomicBool::new(false), |_, _, _| {}).unwrap();
    let mut encoded = Vec::new();
    write_dataset(&mut encoded, &data);
    let (copy, _) = read_dataset(&encoded, 0).unwrap();
    assert_eq!(copy.node(0).bytes, data.node(0).bytes);
    assert_eq!(copy.children, data.children);
    for id in 0..copy.nodes.len() as u32 {
        assert_eq!(copy.path(id), data.path(id));
        assert_eq!(copy.file_count(id), data.file_count(id));
        assert_eq!(copy.child_ids(id), data.child_ids(id));
        assert_eq!(copy.child_prefix_bytes(id), data.child_prefix_bytes(id));
    }
    assert!(read_dataset(&encoded[..encoded.len() - 1], 0).is_err());
}

#[test]
fn every_cut_of_an_encoding_is_refused() {
    let mut b = Builder::default();
    let a = b.folder("Z:\\q").unwrap();
    b.add_file(a, "f", Some(3)).unwrap();
    let data = b.finish(&AtomicBool::new(false), |_, _, _| {}).unwrap();
    let mut encoded = Vec::new();
    write_dataset(&mut encoded, &data);
    for cut in 0..encoded.len() {
        assert!(read_dataset(&encoded[..cut], 0).is_err());
    }
    let (copy, end) = read_dataset(&encoded, 0).unwrap();
    assert_eq!(end, encoded.len());
    assert_eq!(copy.names, data.names);
    assert!(!copy.synthetic);
}

#[test]
fn integers_are_little_endian() {
    let mut out = Vec::new();
    write_u64(&mut out, 0x0102030405060708);
    assert_eq!(out, [8, 7, 6, 5, 4, 3, 2, 1]);
    assert_eq!(read_u64(&out, 0), Ok((0x0102030405060708, 8)));
    assert_eq!(read_u64(&out, 1), Err(Fault::Truncated));
}

#[test]
fn texts_round_trip_and_bad_bytes_are_refused() {
    let mut out = Vec::new();
    write_string(&mut out, "héllo");
    assert_eq!(out.len(), 8 + 6);
    let (text, end) = read_string(&out, 0).unwrap();
    assert_eq!(text, "héllo");
    assert_eq!(end, out.len());
    let mut bad = Vec::new();
    write_u64(&mut bad, 1);
    bad.push(0xff);
    assert_eq!(read_string(&bad, 0).err(), Some(Fault::Invalid));
    let mut huge = Vec::new();
    write_u64(&mut huge, 2_000_000);
    assert_eq!(read_string(&huge, 0).err(), Some(Fault::Invalid));
    assert_eq!(Fault::Truncated.text(), "failed to fill whole buffer");
    assert_eq!(Fault::Invalid.text(), "Invalid worker protocol");
}

#[test]
fn a_short_or_foreign_header_is_refused_before_anything_is_read() {
    assert_eq!(read_dataset(&[0x45, 0x54, 0x52], 0).err(), Some(Fault::Truncated));
    assert_eq!(read_dataset(&[0u8; 64], 0).err(), Some(Fault::Invalid));
    assert_eq!(read_dataset(&[0x45, 0x54, 0x52, 0x33], 1).err(), Some(Fault::Truncated));
}

#[test]
fn a_progress_report_reads_back_as_written() {
    let mut out = vec![7u8];
    everytree::transfer::write_progress(&mut out, "Building the file hierarchy", 65536, 1_000_000);
    let (stage, done, total, end) = everytree::transfer::read_progress(&out, 1).unwrap();
    assert_eq!(stage, "Building the file hierarchy");
    assert_eq!((done, total, end), (65536, 1_000_000, out.len()));
    assert_eq!(everytree::transfer::read_progress(&out[..out.len() - 1], 1).err(), Some(Fault::Truncated));
}
