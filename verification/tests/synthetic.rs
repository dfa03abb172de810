//! Containers that are made with the `cfb` writer and read as a whole.

use mpp_rs::mpp14::{detect_format, parse, Format};
use std::io::{Cursor, Write};

const FIXED_META_MAGIC: u32 = 0xFADF_ADBA;

fn fixed_meta(item_size: usize, data_offset: u32) -> Vec<u8> {
    let mut m = Vec::new();
    m.extend_from_slice(&FIXED_META_MAGIC.to_le_bytes());
    m.extend_from_slice(&0u32.to_le_bytes());
    m.extend_from_slice(&1u32.to_le_bytes()); // item count
    m.extend_from_slice(&0u32.to_le_bytes());
    let mut rec = vec![0u8; item_size];
    rec[4..8].copy_from_slice(&data_offset.to_le_bytes());
    m.extend_from_slice(&rec);
    m
}

fn var_meta(unique_id: u32, key: u16, offset: u32) -> Vec<u8> {
    let mut m = Vec::new();
    m.extend_from_slice(&FIXED_META_MAGIC.to_le_bytes());
    m.extend_from_slice(&0u32.to_le_bytes());
    m.extend_from_slice(&1u32.to_le_bytes()); // item count
    m.extend_from_slice(&0u32.to_le_bytes());
    m.extend_from_slice(&0u32.to_le_bytes());
    m.extend_from_slice(&0u32.to_le_bytes()); // data size
    m.extend_from_slice(&unique_id.to_le_bytes());
    m.extend_from_slice(&offset.to_le_bytes());
    m.extend_from_slice(&key.to_le_bytes());
    m.extend_from_slice(&0u16.to_le_bytes());
    m
}

fn var2data_string(s: &str) -> Vec<u8> {
    let mut payload = Vec::new();
    for c in s.encode_utf16() {
        payload.extend_from_slice(&c.to_le_bytes());
    }
    payload.extend_from_slice(&0u16.to_le_bytes());
    let mut v = Vec::new();
    v.extend_from_slice(&(payload.len() as u32).to_le_bytes());
    v.extend_from_slice(&payload);
    v
}

fn container(storages: &[&str], streams: &[(&str, Vec<u8>)]) -> Vec<u8> {
    let mut cf = cfb::CompoundFile::create(Cursor::new(Vec::new())).unwrap();
    for storage in storages {
        cf.create_storage(storage).unwrap();
    }
    for (path, bytes) in streams {
        let mut s = cf.create_stream(path).unwrap();
        s.write_all(bytes).unwrap();
        s.flush().unwrap();
    }
    cf.flush().unwrap();
    cf.into_inner().into_inner()
}

fn first_block() -> Vec<u8> {
    let mut d0 = vec![0u8; 100];
    d0[0..4].copy_from_slice(&1i32.to_le_bytes()); // id
    d0[4..8].copy_from_slice(&110i32.to_le_bytes()); // unique id
    d0[40..42].copy_from_slice(&1u16.to_le_bytes()); // outline level
    d0[90..92].copy_from_slice(&50u16.to_le_bytes()); // % complete
    d0
}

fn required_streams() -> Vec<(&'static str, Vec<u8>)> {
    vec![
        ("/   114/TBkndTask/VarMeta", var_meta(110, 14, 0)),
        ("/   114/TBkndTask/Var2Data", var2data_string("Test Task")),
        ("/   114/TBkndTask/FixedMeta", fixed_meta(47, 0)),
        ("/   114/TBkndTask/FixedData", first_block()),
    ]
}

#[test]
fn synthetic_mpp14_one_task() {
    // ---- fixed block 0: UID@0, ID@4, OutlineLevel@40, %@90 ----
    let mut d0 = vec![0u8; 100];
    d0[0..4].copy_from_slice(&1i32.to_le_bytes()); // id
    d0[4..8].copy_from_slice(&110i32.to_le_bytes()); // unique id
    d0[40..42].copy_from_slice(&1u16.to_le_bytes()); // outline level
    d0[90..92].copy_from_slice(&50u16.to_le_bytes()); // % complete

    // ---- fixed block 1: Start@50, Finish@54 (MPP timestamp: time, days) ----
    let mut d2 = vec![0u8; 64];
    d2[50..52].copy_from_slice(&480u16.to_le_bytes()); // start time = 00:48
    d2[52..54].copy_from_slice(&366u16.to_le_bytes()); // start days -> 1984-12-31
    d2[54..56].copy_from_slice(&0u16.to_le_bytes()); // finish time
    d2[56..58].copy_from_slice(&370u16.to_le_bytes()); // finish days

    // ---- author the OLE container ----
    let mut cf = cfb::CompoundFile::create(Cursor::new(Vec::new())).unwrap();
    cf.create_storage("/   114").unwrap();
    cf.create_storage("/   114/TBkndTask").unwrap();

    let write = |cf: &mut cfb::CompoundFile<Cursor<Vec<u8>>>, path: &str, bytes: &[u8]| {
        let mut s = cf.create_stream(path).unwrap();
        s.write_all(bytes).unwrap();
        s.flush().unwrap();
    };

    write(&mut cf, "/   114/TBkndTask/VarMeta", &var_meta(110, 14, 0));
    write(&mut cf, "/   114/TBkndTask/Var2Data", &var2data_string("Test Task"));
    write(&mut cf, "/   114/TBkndTask/FixedMeta", &fixed_meta(47, 0));
    write(&mut cf, "/   114/TBkndTask/FixedData", &d0);
    write(&mut cf, "/   114/TBkndTask/Fixed2Meta", &fixed_meta(92, 0));
    write(&mut cf, "/   114/TBkndTask/Fixed2Data", &d2);

    cf.flush().unwrap();
    let bytes = cf.into_inner().into_inner();

    // ---- run the real pipeline ----
    let project = parse(&bytes).expect("parse should succeed");

    assert_eq!(project.format, "MSProject.MPP14");
    assert!(project.resources.is_empty());
    assert_eq!(project.tasks.len(), 1);
    let task = &project.tasks[0];
    assert_eq!(task.unique_id, 110);
    assert_eq!(task.id, 1);
    assert_eq!(task.name, "Test Task");
    assert_eq!(task.outline_level, 1);
    assert_eq!(task.percent_complete, 50);
    assert_eq!(task.start.as_deref(), Some("1984-12-31T00:48:00"));
    assert!(task.finish.is_some());
    assert_eq!(task.finish.as_deref(), Some("1985-01-04T00:00:00"));
}

#[test]
fn second_streams_are_optional() {
    let bytes = container(&["/   114", "/   114/TBkndTask"], &required_streams());
    let project = parse(&bytes).expect("parse should succeed");
    assert_eq!(project.tasks.len(), 1);
    assert_eq!(project.tasks[0].name, "Test Task");
    assert_eq!(project.tasks[0].start, None);
    assert_eq!(project.tasks[0].finish, None);
}

#[test]
fn broken_second_streams_are_ignored() {
    let mut streams = required_streams();
    streams.push(("/   114/TBkndTask/Fixed2Meta", vec![1, 2, 3]));
    streams.push(("/   114/TBkndTask/Fixed2Data", vec![4, 5, 6]));
    let bytes = container(&["/   114", "/   114/TBkndTask"], &streams);
    let project = parse(&bytes).expect("parse should succeed");
    assert_eq!(project.tasks.len(), 1);
    assert_eq!(project.tasks[0].start, None);
}

#[test]
fn missing_streams_are_named() {
    for (left_out, path) in [
        (0, "/   114/TBkndTask/VarMeta"),
        (1, "/   114/TBkndTask/Var2Data"),
        (2, "/   114/TBkndTask/FixedMeta"),
        (3, "/   114/TBkndTask/FixedData"),
    ] {
        let mut streams = required_streams();
        streams.remove(left_out);
        let bytes = container(&["/   114", "/   114/TBkndTask"], &streams);
        let message = parse(&bytes).err().expect("parse should fail");
        let expected = format!("missing stream {}: ", path);
        assert!(message.starts_with(&expected), "{}", message);
        assert!(message.len() > expected.len());
    }
}

#[test]
fn the_first_missing_stream_is_named() {
    let bytes = container(&["/   114"], &[]);
    let message = parse(&bytes).err().expect("parse should fail");
    assert!(message.starts_with("missing stream /   114/TBkndTask/VarMeta: "), "{}", message);
}

#[test]
fn bad_streams_give_their_own_error() {
    let mut streams = required_streams();
    streams[0].1 = vec![0xEF, 0xBE, 0xAD, 0xDE];
    let bytes = container(&["/   114", "/   114/TBkndTask"], &streams);
    assert_eq!(parse(&bytes).err().as_deref(), Some("VarMeta: bad magic 0xdeadbeef"));

    let mut streams = required_streams();
    streams[2].1 = vec![0xBA];
    let bytes = container(&["/   114", "/   114/TBkndTask"], &streams);
    assert_eq!(parse(&bytes).err().as_deref(), Some("FixedMeta: truncated"));
}

#[test]
fn a_file_that_is_no_container() {
    for bytes in [&b""[..], &b"not a compound file"[..], &[0xD0, 0xCF, 0x11, 0xE0][..]] {
        let message = parse(bytes).err().expect("parse should fail");
        assert!(message.starts_with("not a valid OLE/MPP container: "), "{}", message);
        assert!(message.len() > "not a valid OLE/MPP container: ".len());
    }
}

#[test]
fn the_reason_why_a_file_is_no_container_is_given() {
    assert_eq!(
        parse(b"").err().as_deref(),
        Some("not a valid OLE/MPP container: Invalid CFB file (0 bytes is too small)")
    );
    let junk = vec![0x41u8; 600];
    let reason = cfb::CompoundFile::open(Cursor::new(junk.clone())).err().unwrap();
    assert_eq!(
        parse(&junk).err(),
        Some(format!("not a valid OLE/MPP container: {}", reason))
    );
}

#[test]
fn other_formats_are_named() {
    for (storages, format) in [
        (&["/   112"][..], "MSProject.MPP12"),
        (&["/   19"][..], "MSProject.MPP9"),
        (&["/   112", "/   19"][..], "MSProject.MPP12"),
        (&["/else"][..], "unknown"),
        (&[][..], "unknown"),
    ] {
        let bytes = container(storages, &[]);
        let expected = format!(
            "this MVP only reads MPP14 (Project 2010+); detected: {}",
            format
        );
        assert_eq!(parse(&bytes).err(), Some(expected));
    }
}

#[test]
fn a_stream_in_the_place_of_a_storage_is_no_format() {
    let bytes = container(&[], &[("/   114", vec![1, 2, 3])]);
    let file = cfb::CompoundFile::open(Cursor::new(bytes)).unwrap();
    assert_eq!(detect_format(&file), Format::Unknown);
    assert_eq!(Format::Unknown.name(), "unknown");
}

#[test]
fn the_newest_format_is_detected() {
    let bytes = container(&["/   19", "/   112", "/   114"], &[]);
    let file = cfb::CompoundFile::open(Cursor::new(bytes)).unwrap();
    assert_eq!(detect_format(&file), Format::Mpp14);
    assert_eq!(Format::Mpp14.name(), "MSProject.MPP14");
}
