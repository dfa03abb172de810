use mpp_rs::var::{Var2Data, VarMeta};

const MAGIC: u32 = 0xFADF_ADBA;

fn var_meta(magic: u32, count: u32, records: &[(i32, i32, u16)]) -> Vec<u8> {
    let mut m = Vec::new();
    m.extend_from_slice(&magic.to_le_bytes());
    m.extend_from_slice(&0u32.to_le_bytes());
    m.extend_from_slice(&count.to_le_bytes());
    m.extend_from_slice(&[0u8; 12]);
    for (unique_id, offset, key) in records {
        m.extend_from_slice(&unique_id.to_le_bytes());
        m.extend_from_slice(&offset.to_le_bytes());
        m.extend_from_slice(&key.to_le_bytes());
        m.extend_from_slice(&0u16.to_le_bytes());
    }
    m
}

fn parsed(records: &[(i32, i32, u16)]) -> VarMeta {
    VarMeta::parse(&var_meta(MAGIC, records.len() as u32, records)).expect("varmeta parses")
}

#[test]
fn varmeta_var2data_roundtrip() {
    let unique_id = 7i32;
    let key = 14i32; // the field key of a task's name
    let item_offset = 0u32;

    // ---- VarMeta (24-byte header + one 12-byte record) ----
    let mut meta = Vec::new();
    meta.extend_from_slice(&MAGIC.to_le_bytes());
    meta.extend_from_slice(&0u32.to_le_bytes()); // unknown
    meta.extend_from_slice(&1u32.to_le_bytes()); // item_count
    meta.extend_from_slice(&0u32.to_le_bytes()); // unknown
    meta.extend_from_slice(&0u32.to_le_bytes()); // unknown
    meta.extend_from_slice(&0u32.to_le_bytes()); // data_size
    meta.extend_from_slice(&(unique_id as u32).to_le_bytes());
    meta.extend_from_slice(&item_offset.to_le_bytes());
    meta.extend_from_slice(&(key as u16).to_le_bytes());
    meta.extend_from_slice(&0u16.to_le_bytes()); // unknown

    let vm = VarMeta::parse(&meta).expect("varmeta parses");
    assert_eq!(vm.offset(unique_id, key), Some(0));

    // ---- Var2Data: [len:u32][utf16le "Design Review\0"] ----
    let mut payload = Vec::new();
    for c in "Design Review".encode_utf16() {
        payload.extend_from_slice(&c.to_le_bytes());
    }
    payload.extend_from_slice(&0u16.to_le_bytes());
    let mut v2 = Vec::new();
    v2.extend_from_slice(&(payload.len() as u32).to_le_bytes());
    v2.extend_from_slice(&payload);

    let store = Var2Data::parse(&vm, &v2);
    assert_eq!(
        store.get_unicode_string(&vm, unique_id, key).as_deref(),
        Some("Design Review")
    );
}

#[test]
fn var_meta_errors() {
    assert_eq!(VarMeta::parse(&[]).err().as_deref(), Some("VarMeta: truncated header"));
    assert_eq!(VarMeta::parse(&[0, 0, 0]).err().as_deref(), Some("VarMeta: truncated header"));
    assert_eq!(VarMeta::parse(&[0; 11]).err().as_deref(), Some("VarMeta: truncated header"));
    assert_eq!(
        VarMeta::parse(&var_meta(0x12ab, 0, &[])).err().as_deref(),
        Some("VarMeta: bad magic 0x000012ab")
    );
    assert_eq!(
        VarMeta::parse(&0xFADF_ADBBu32.to_le_bytes()).err().as_deref(),
        Some("VarMeta: bad magic 0xfadfadbb")
    );
}

#[test]
fn var_meta_tolerates_a_zero_magic() {
    let vm = VarMeta::parse(&var_meta(0, 1, &[(3, 8, 14)])).expect("varmeta parses");
    assert_eq!(vm.offset(3, 14), Some(8));
}

#[test]
fn var_meta_without_room_for_records() {
    let vm = VarMeta::parse(&var_meta(MAGIC, 5, &[])).expect("varmeta parses");
    assert!(vm.offsets().is_empty());
    let short = VarMeta::parse(&[0; 12]).expect("varmeta parses");
    assert!(short.unique_ids().is_empty());
}

#[test]
fn var_meta_stops_at_the_end_of_the_stream() {
    let mut m = var_meta(MAGIC, 3, &[(1, 10, 14), (2, 20, 14), (3, 30, 14)]);
    m.pop();
    let vm = VarMeta::parse(&m).expect("varmeta parses");
    assert_eq!(vm.offset(2, 14), Some(20));
    assert_eq!(vm.offset(3, 14), None);
}

#[test]
fn var_meta_stops_at_the_announced_count() {
    let m = var_meta(MAGIC, 1, &[(1, 10, 14), (2, 20, 14)]);
    let vm = VarMeta::parse(&m).expect("varmeta parses");
    assert_eq!(vm.offsets(), &[10]);
    assert_eq!(vm.offset(2, 14), None);
}

#[test]
fn var_meta_last_record_wins() {
    let vm = parsed(&[(1, 10, 14), (1, 20, 15), (1, 30, 14)]);
    assert_eq!(vm.offset(1, 14), Some(30));
    assert_eq!(vm.offset(1, 15), Some(20));
}

#[test]
fn var_meta_unmentioned_fields_have_no_offset() {
    let vm = parsed(&[(1, 10, 14)]);
    assert_eq!(vm.offset(1, 15), None);
    assert_eq!(vm.offset(2, 14), None);
}

#[test]
fn var_meta_offsets_are_sorted() {
    let vm = parsed(&[(1, 30, 14), (2, -5, 14), (3, 10, 14), (1, 30, 15)]);
    assert_eq!(vm.offsets(), &[-5, 10, 30, 30]);
}

#[test]
fn var_meta_unique_ids_ascend() {
    let vm = parsed(&[(9, 0, 14), (-4, 1, 14), (9, 2, 15), (3, 3, 14)]);
    assert_eq!(vm.unique_ids(), vec![-4, 3, 9]);
}

#[test]
fn var_meta_parts_agree() {
    let vm = parsed(&[(9, 40, 14), (-4, 12, 3), (9, 8, 15), (9, 16, 14)]);
    for (unique_id, key) in [(9, 14), (-4, 3), (9, 15)] {
        let offset = vm.offset(unique_id, key).expect("field has an offset");
        assert!(vm.offsets().contains(&offset));
        assert!(vm.unique_ids().contains(&unique_id));
    }
    assert_eq!(vm.offsets(), &[8, 12, 16, 40]);
}

#[test]
fn var_meta_field_keys_are_unsigned() {
    let vm = parsed(&[(1, 4, 0xFFFF)]);
    assert_eq!(vm.offset(1, 65535), Some(4));
    assert_eq!(vm.offset(1, -1), None);
}

#[test]
fn var2_data_values() {
    let mut data = vec![0u8; 3];
    data.extend_from_slice(&2u32.to_le_bytes()); // at 3
    data.extend_from_slice(&[0xAB, 0xCD]);
    data.extend_from_slice(&0u32.to_le_bytes()); // at 9: empty
    data.extend_from_slice(&4u32.to_le_bytes()); // at 13: reaches past the end
    data.extend_from_slice(&[1, 2, 3]);
    let vm = parsed(&[(1, 3, 1), (1, 9, 2), (1, 13, 3), (1, -3, 4), (1, 1000, 5)]);
    let store = Var2Data::parse(&vm, &data);
    assert_eq!(store.get_bytes(&vm, 1, 1), Some(&[0xAB, 0xCD][..]));
    assert_eq!(store.get_bytes(&vm, 1, 2), Some(&[][..]));
    assert_eq!(store.get_bytes(&vm, 1, 3), None);
    assert_eq!(store.get_bytes(&vm, 1, 4), None);
    assert_eq!(store.get_bytes(&vm, 1, 5), None);
    assert_eq!(store.get_bytes(&vm, 1, 6), None);
    assert_eq!(store.get_unicode_string(&vm, 1, 1).as_deref(), Some("\u{CDAB}"));
    assert_eq!(store.get_unicode_string(&vm, 1, 2).as_deref(), Some(""));
    assert_eq!(store.get_unicode_string(&vm, 1, 3), None);
}
