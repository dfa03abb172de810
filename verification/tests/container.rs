use mpp_rs::container::read_stream;
use mpp_rs::mpp14::read_streams;
use std::io::{Cursor, Read, Write};

fn made(streams: &[(&str, &[u8])]) -> Vec<u8> {
    let mut cf = cfb::CompoundFile::create(Cursor::new(Vec::new())).unwrap();
    cf.create_storage("/   114").unwrap();
    cf.create_storage("/   114/TBkndTask").unwrap();
    for (path, bytes) in streams {
        let mut s = cf.create_stream(path).unwrap();
        s.write_all(bytes).unwrap();
        s.flush().unwrap();
    }
    cf.flush().unwrap();
    cf.into_inner().into_inner()
}

fn open(streams: &[(&str, &[u8])]) -> cfb::CompoundFile<Cursor<Vec<u8>>> {
    cfb::CompoundFile::open(Cursor::new(made(streams))).unwrap()
}

/// Lets the directory entry of a stream claim another length.
fn claim_length(bytes: &mut [u8], name: &str, length: u32) {
    let mut field = [0u8; 64];
    for (i, unit) in name.encode_utf16().enumerate() {
        field[2 * i..2 * i + 2].copy_from_slice(&unit.to_le_bytes());
    }
    let entry = (0..bytes.len() / 128)
        .map(|i| 128 * i)
        .find(|at| bytes[*at..*at + 64] == field)
        .expect("directory entry");
    bytes[entry + 120..entry + 124].copy_from_slice(&length.to_le_bytes());
}

#[test]
fn streams_are_read_whole_and_again() {
    let long: Vec<u8> = (0..10_000u32).map(|i| (i % 251) as u8).collect();
    let mut file = open(&[("/a", b"short"), ("/b", &long), ("/c", b"")]);
    assert_eq!(read_stream(&mut file, "/a").unwrap(), b"short".to_vec());
    assert_eq!(read_stream(&mut file, "/b").unwrap(), long);
    assert_eq!(read_stream(&mut file, "/c").unwrap(), Vec::<u8>::new());
    assert_eq!(read_stream(&mut file, "/a").unwrap(), b"short".to_vec());
}

#[test]
fn a_missing_stream_is_named() {
    let mut file = open(&[]);
    let message = read_stream(&mut file, "/none").unwrap_err();
    assert!(message.starts_with("missing stream /none: No such stream: "), "{}", message);
    // A storage is no stream.
    let message = read_stream(&mut file, "/   114").unwrap_err();
    assert!(message.starts_with("missing stream /   114: Not a stream: "), "{}", message);
    let message = read_stream(&mut file, "/../none").unwrap_err();
    assert_eq!(message, "missing stream /../none: Invalid path (must be within root)");
}

#[test]
fn paths_start_at_the_root() {
    let mut file = open(&[("/   114/a", b"there")]);
    assert_eq!(read_stream(&mut file, "/   114/a").unwrap(), b"there".to_vec());
    assert_eq!(read_stream(&mut file, "   114/a").unwrap(), b"there".to_vec());
}

#[test]
fn each_task_stream_is_read_from_its_own_place() {
    let mut file = open(&[
        ("/   114/TBkndTask/VarMeta", b"1"),
        ("/   114/TBkndTask/Var2Data", b"2"),
        ("/   114/TBkndTask/FixedMeta", b"3"),
        ("/   114/TBkndTask/FixedData", b"4"),
        ("/   114/TBkndTask/Fixed2Meta", b"5"),
        ("/   114/TBkndTask/Fixed2Data", b"6"),
    ]);
    let streams = read_streams(&mut file);
    assert_eq!(streams.var_meta.unwrap(), b"1".to_vec());
    assert_eq!(streams.var2_data.unwrap(), b"2".to_vec());
    assert_eq!(streams.fixed_meta.unwrap(), b"3".to_vec());
    assert_eq!(streams.fixed_data.unwrap(), b"4".to_vec());
    assert_eq!(streams.fixed2_meta.unwrap(), b"5".to_vec());
    assert_eq!(streams.fixed2_data.unwrap(), b"6".to_vec());
}

#[test]
fn a_broken_chain_is_unreadable() {
    let long = vec![7u8; 10_000];
    for (path, name, length) in [("/long", "long", 100_000), ("/short", "short", 4000)] {
        let mut bytes = made(&[("/long", &long), ("/short", b"few bytes")]);
        claim_length(&mut bytes, name, length);
        let mut file = cfb::CompoundFile::open(Cursor::new(bytes)).unwrap();
        let message = read_stream(&mut file, path).unwrap_err();
        let mut content = Vec::new();
        let reason = file.open_stream(path).unwrap().read_to_end(&mut content).unwrap_err();
        assert_eq!(message, format!("read {}: {}", path, reason));
        assert_eq!(read_stream(&mut file, path).unwrap_err(), message);
    }
}

#[test]
fn a_broken_chain_leaves_other_streams_whole() {
    let long = vec![7u8; 10_000];
    let mut bytes = made(&[("/long", &long), ("/short", b"few bytes")]);
    claim_length(&mut bytes, "long", 100_000);
    let mut file = cfb::CompoundFile::open(Cursor::new(bytes)).unwrap();
    assert!(read_stream(&mut file, "/long").is_err());
    assert_eq!(read_stream(&mut file, "/short").unwrap(), b"few bytes".to_vec());
}
