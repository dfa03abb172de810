use mpp_rs::fixed::{FixedData, FixedMeta};

const FIXED_META_MAGIC: u32 = 0xFADF_ADBA;

fn header(count: u32) -> Vec<u8> {
    let mut m = Vec::new();
    m.extend_from_slice(&FIXED_META_MAGIC.to_le_bytes());
    m.extend_from_slice(&0u32.to_le_bytes());
    m.extend_from_slice(&count.to_le_bytes());
    m.extend_from_slice(&0u32.to_le_bytes());
    m
}

fn fixed_meta(offsets: &[u32]) -> FixedMeta {
    let mut m = header(offsets.len() as u32);
    for offset in offsets {
        m.extend_from_slice(&0u32.to_le_bytes());
        m.extend_from_slice(&offset.to_le_bytes());
    }
    FixedMeta::parse(&m, 8).expect("fixedmeta parses")
}

#[test]
fn fixedmeta_fixeddata_roundtrip() {
    let item_size = 12usize; // meta record size (offset lives at byte 4)

    // ---- FixedMeta: 16-byte header + two 12-byte records ----
    let mut meta = Vec::new();
    meta.extend_from_slice(&FIXED_META_MAGIC.to_le_bytes());
    meta.extend_from_slice(&0u32.to_le_bytes());
    meta.extend_from_slice(&2u32.to_le_bytes()); // header item count
    meta.extend_from_slice(&0u32.to_le_bytes());
    // record 0: data offset 0
    let mut rec0 = vec![0u8; item_size];
    rec0[4..8].copy_from_slice(&0u32.to_le_bytes());
    // record 1: data offset 8
    let mut rec1 = vec![0u8; item_size];
    rec1[4..8].copy_from_slice(&8u32.to_le_bytes());
    meta.extend_from_slice(&rec0);
    meta.extend_from_slice(&rec1);

    let fm = FixedMeta::parse(&meta, item_size).expect("fixedmeta parses");
    assert_eq!(fm.item_count(), 2);

    // ---- FixedData: item 0 = bytes 0..8, item 1 = bytes 8..16 ----
    let mut fd = Vec::new();
    fd.extend_from_slice(&[0xAA; 8]); // item 0
    fd.extend_from_slice(&[0xBB; 8]); // item 1
    let store = FixedData::parse(&fm, &fd);
    assert_eq!(store.item(0), Some(&[0xAA; 8][..]));
    assert_eq!(store.item(1), Some(&[0xBB; 8][..]));
}

#[test]
fn fixed_meta_errors() {
    assert_eq!(FixedMeta::parse(&[1, 2, 3], 4).err().as_deref(), Some("FixedMeta: truncated"));
    assert_eq!(
        FixedMeta::parse(&[0; 16], 4).err().as_deref(),
        Some("FixedMeta: bad magic 0x00000000")
    );
    assert_eq!(
        FixedMeta::parse_with_candidates(&0xFFEE_DDCCu32.to_le_bytes(), &[4], 1).err().as_deref(),
        Some("FixedMeta: bad magic 0xffeeddcc")
    );
}

#[test]
fn fixed_meta_counts_whole_records() {
    let mut m = header(99);
    m.extend_from_slice(&[0; 25]);
    assert_eq!(FixedMeta::parse(&m, 8).unwrap().item_count(), 3);
    assert_eq!(FixedMeta::parse(&m, 26).unwrap().item_count(), 0);
    assert_eq!(FixedMeta::parse(&m[0..4], 8).unwrap().item_count(), 0);
}

#[test]
fn fixed_meta_with_records_of_no_size() {
    let mut m = header(0);
    m.extend_from_slice(&[0; 5]);
    let meta = FixedMeta::parse(&m, 0).unwrap();
    assert_eq!(meta.item_count(), 5);
    assert_eq!(meta.item_offset(0), None);
}

#[test]
fn fixed_meta_item_offsets() {
    let meta = fixed_meta(&[7, 0xFFFF_FFFF]);
    assert_eq!(meta.item_offset(0), Some(7));
    assert_eq!(meta.item_offset(1), Some(0xFFFF_FFFF));
    assert_eq!(meta.item_offset(2), None);
}

#[test]
fn candidate_with_the_expected_count_is_taken() {
    // 24 bytes are 4 records of 6, 3 of 8 and 2 of 12.
    let mut m = header(4);
    m.extend_from_slice(&[0; 24]);
    let count = |candidates: &[usize], expected: usize| {
        FixedMeta::parse_with_candidates(&m, candidates, expected).unwrap().item_count()
    };
    assert_eq!(count(&[6, 8, 12], 2), 2);
    assert_eq!(count(&[12, 8, 6], 3), 3);
    assert_eq!(count(&[0, 5, 8], 3), 3);
}

#[test]
fn candidate_that_fits_the_announced_count_most_closely_is_taken() {
    // None gives 7 records; 3 announced records take 18, 24 and 36 bytes of 24.
    let mut m = header(3);
    m.extend_from_slice(&[0; 24]);
    let count = |candidates: &[usize]| {
        FixedMeta::parse_with_candidates(&m, candidates, 7).unwrap().item_count()
    };
    assert_eq!(count(&[6, 8, 12]), 3);
    assert_eq!(count(&[12, 6]), 4);
    assert_eq!(count(&[12, 24]), 2);
}

#[test]
fn first_candidate_is_taken_where_none_fits() {
    let mut m = header(1000);
    m.extend_from_slice(&[0; 25]);
    let meta = FixedMeta::parse_with_candidates(&m, &[7, 9, 10], 2).unwrap();
    assert_eq!(meta.item_count(), 3);
    // A header too short for a count announces none.
    let meta = FixedMeta::parse_with_candidates(&m[0..10], &[4, 5], 3).unwrap();
    assert_eq!(meta.item_count(), 0);
}

#[test]
fn fixed_items_end_where_the_next_begins() {
    let data: Vec<u8> = (0..20).collect();
    let store = FixedData::parse(&fixed_meta(&[2, 5, 5, 9]), &data);
    assert_eq!(store.item_count(), 4);
    assert_eq!(store.item(0), Some(&data[2..5]));
    assert_eq!(store.item(1), None); // empty
    assert_eq!(store.item(2), Some(&data[5..9]));
    assert_eq!(store.item(3), Some(&data[9..20]));
    assert_eq!(store.item(4), None);
}

#[test]
fn fixed_items_fill_the_store() {
    let data: Vec<u8> = (0..20).collect();
    for offsets in [&[3u32, 3, 7, 19, 20][..], &[0, 20, 20][..], &[5][..]] {
        let store = FixedData::parse(&fixed_meta(offsets), &data);
        let mut joined: Vec<u8> = Vec::new();
        for i in 0..store.item_count() {
            joined.extend_from_slice(store.item(i).unwrap_or(&[]));
        }
        assert_eq!(joined, data[offsets[0] as usize..].to_vec());
    }
}

#[test]
fn first_of_equally_close_candidates_is_taken() {
    // Nothing is announced: each size that divides 24 fits equally, and the first is taken.
    let mut m = header(0);
    m.extend_from_slice(&[0; 24]);
    let count = |candidates: &[usize]| {
        FixedMeta::parse_with_candidates(&m, candidates, 7).unwrap().item_count()
    };
    assert_eq!(count(&[5, 12, 8]), 2);
    assert_eq!(count(&[5, 8, 12]), 3);
}

#[test]
fn fixed_items_with_odd_offsets() {
    let data: Vec<u8> = (0..20).collect();
    // The next offset lies before: the item reaches to the end of the store.
    let store = FixedData::parse(&fixed_meta(&[8, 3]), &data);
    assert_eq!(store.item(0), Some(&data[8..20]));
    assert_eq!(store.item(1), Some(&data[3..20]));
    // The next offset lies behind the store: the item is cut at its end.
    let store = FixedData::parse(&fixed_meta(&[15, 100, 18]), &data);
    assert_eq!(store.item(0), Some(&data[15..20]));
    assert_eq!(store.item(1), None);
    assert_eq!(store.item(2), Some(&data[18..20]));
    // The last item starts at the end of the store.
    let store = FixedData::parse(&fixed_meta(&[20]), &data);
    assert_eq!(store.item(0), None);
}

#[test]
fn fixed_item_at_the_end_of_the_store_that_reaches_past_it() {
    let data: Vec<u8> = (0..4).collect();
    let store = FixedData::parse(&fixed_meta(&[4, 9]), &data);
    assert_eq!(store.item(0), Some(&[][..]));
}
