use mpp_rs::calendar::Timestamp;
use mpp_rs::util::{
    epoch, get_f64_bits, get_i16, get_i32, get_timestamp, get_u16, get_u32, get_unicode_string,
    to_iso, to_signed, EPOCH_SECONDS,
};

fn stamp(time: u16, days: u16) -> [u8; 4] {
    let mut d = [0u8; 4];
    d[0..2].copy_from_slice(&time.to_le_bytes());
    d[2..4].copy_from_slice(&days.to_le_bytes());
    d
}

fn iso_of(time: u16, days: u16) -> Option<String> {
    get_timestamp(&stamp(time, days), 0).map(to_iso)
}

fn units(text: &str) -> Vec<u8> {
    let mut d = Vec::new();
    for u in text.encode_utf16() {
        d.extend_from_slice(&u.to_le_bytes());
    }
    d
}

#[test]
fn little_endian_ints() {
    let d = [0x01, 0x02, 0x03, 0x04];
    assert_eq!(get_u16(&d, 0), Some(0x0201));
    assert_eq!(get_u32(&d, 0), Some(0x04030201));
    assert_eq!(get_u16(&d, 3), None); // out of bounds
}

#[test]
fn timestamp_epoch_plus_days() {
    // days = 366 (epoch is 1983-12-31, so +366 days = 1984-12-31),
    // time = 480 tenths-of-a-minute = 480 * 6s = 48 min past midnight = 00:48.
    let mut d = [0u8; 4];
    d[0..2].copy_from_slice(&480u16.to_le_bytes());
    d[2..4].copy_from_slice(&366u16.to_le_bytes());
    let ts = get_timestamp(&d, 0).expect("valid timestamp");
    assert_eq!(to_iso(ts), "1984-12-31T00:48:00");
}

#[test]
fn timestamp_na_sentinels() {
    let mut d = [0u8; 4];
    d[2..4].copy_from_slice(&65535u16.to_le_bytes());
    assert_eq!(get_timestamp(&d, 0), None);
    d[2..4].copy_from_slice(&0u16.to_le_bytes());
    assert_eq!(get_timestamp(&d, 0), None); // days <= 1
}

#[test]
fn unicode_string_nul_terminated() {
    // "Hi" then a NUL word, then trailing junk that must be ignored.
    let mut d = Vec::new();
    for c in "Hi".encode_utf16() {
        d.extend_from_slice(&c.to_le_bytes());
    }
    d.extend_from_slice(&0u16.to_le_bytes());
    d.extend_from_slice(&0x4242u16.to_le_bytes());
    assert_eq!(get_unicode_string(&d, 0), "Hi");
}

#[test]
fn signed_ints() {
    let d = [0xFE, 0xFF, 0xFF, 0xFF, 0xFF, 0x7F];
    assert_eq!(get_i16(&d, 0), Some(-2));
    assert_eq!(get_i16(&d, 4), Some(0x7FFF));
    assert_eq!(get_i16(&d, 5), None);
    assert_eq!(get_i32(&d, 0), Some(-2));
    assert_eq!(get_i32(&d, 2), Some(0x7FFF_FFFF));
    assert_eq!(get_i32(&d, 3), None);
    assert_eq!(to_signed(0x8000_0000), i32::MIN);
    assert_eq!(to_signed(0x7FFF_FFFF), i32::MAX);
}

#[test]
fn ints_far_out_of_bounds() {
    let d = [1u8; 8];
    assert_eq!(get_u16(&d, usize::MAX), None);
    assert_eq!(get_u32(&d, usize::MAX - 1), None);
    assert_eq!(get_i32(&[], 0), None);
    assert_eq!(get_timestamp(&d, usize::MAX - 2), None);
    assert_eq!(get_f64_bits(&d, usize::MAX - 3), None);
    assert_eq!(get_unicode_string(&d, usize::MAX), "");
}

#[test]
fn ints_read_back() {
    for value in [0u16, 1, 0x7FFF, 0x8000, 0xFFFF] {
        let mut d = vec![9u8; 3];
        d.extend_from_slice(&value.to_le_bytes());
        assert_eq!(get_u16(&d, 3), Some(value));
    }
    for value in [0u32, 1, 0x1234_5678, 0x8000_0000, u32::MAX] {
        let mut d = vec![9u8; 5];
        d.extend_from_slice(&value.to_le_bytes());
        assert_eq!(get_u32(&d, 5), Some(value));
    }
    for value in [0i32, -1, i32::MIN, i32::MAX, 110] {
        let mut d = vec![9u8; 1];
        d.extend_from_slice(&value.to_le_bytes());
        assert_eq!(get_i32(&d, 1), Some(value));
    }
}

#[test]
fn double_bits() {
    let mut d = vec![7u8; 2];
    d.extend_from_slice(&1.5f64.to_le_bytes());
    assert_eq!(get_f64_bits(&d, 2).map(f64::from_bits), Some(1.5));
    assert_eq!(get_f64_bits(&d, 3), None);
    let infinite = f64::NEG_INFINITY.to_le_bytes();
    assert_eq!(get_f64_bits(&infinite, 0).map(f64::from_bits), Some(f64::NEG_INFINITY));
}

#[test]
fn double_bits_of_nan_are_zero() {
    assert_eq!(get_f64_bits(&f64::NAN.to_le_bytes(), 0), Some(0));
    assert_eq!(get_f64_bits(&(-f64::NAN).to_le_bytes(), 0), Some(0));
    assert_eq!(get_f64_bits(&0xFFF0_0000_0000_0001u64.to_le_bytes(), 0), Some(0));
    assert_eq!(get_f64_bits(&0x7FF0_0000_0000_0001u64.to_le_bytes(), 0), Some(0));
}

#[test]
fn epoch_is_new_years_eve() {
    assert_eq!(epoch(), Timestamp { seconds: EPOCH_SECONDS });
    assert_eq!(to_iso(epoch()), "1983-12-31T00:00:00");
}

#[test]
fn timestamp_day_counts() {
    assert_eq!(iso_of(0, 1), None);
    assert_eq!(iso_of(0, 2).as_deref(), Some("1984-01-02T00:00:00"));
    assert_eq!(iso_of(0, 60).as_deref(), Some("1984-02-29T00:00:00"));
    assert_eq!(iso_of(0, 61).as_deref(), Some("1984-03-01T00:00:00"));
    assert_eq!(iso_of(4800, 15522).as_deref(), Some("2026-06-30T08:00:00"));
    assert_eq!(iso_of(65534, 65534).as_deref(), Some("2163-06-08T13:13:24"));
}

#[test]
fn timestamp_small_day_counts_need_whole_minutes() {
    assert_eq!(iso_of(11, 99), None);
    assert_eq!(iso_of(10, 99).as_deref(), Some("1984-04-08T00:01:00"));
    assert_eq!(iso_of(11, 100).as_deref(), Some("1984-04-09T00:01:06"));
}

#[test]
fn timestamp_time_without_value_is_midnight() {
    assert_eq!(iso_of(65535, 366).as_deref(), Some("1984-12-31T00:00:00"));
    assert_eq!(iso_of(65535, 50).as_deref(), Some("1984-02-19T00:00:00"));
}

#[test]
fn timestamp_needs_four_bytes() {
    let d = stamp(480, 366);
    assert_eq!(get_timestamp(&d, 1), None);
    assert_eq!(get_timestamp(&d[0..3], 0), None);
}

#[test]
fn iso_of_other_years() {
    let iso = |seconds: i64| to_iso(Timestamp { seconds });
    assert_eq!(iso(0), "1970-01-01T00:00:00");
    assert_eq!(iso(-1), "1969-12-31T23:59:59");
    assert_eq!(iso(951_782_400), "2000-02-29T00:00:00");
    assert_eq!(iso(253_402_300_799), "9999-12-31T23:59:59");
    assert_eq!(iso(253_402_300_800), "+10000-01-01T00:00:00");
    assert_eq!(iso(-62_167_219_200), "0000-01-01T00:00:00");
    assert_eq!(iso(-62_198_755_200), "-0001-01-01T00:00:00");
    assert_eq!(iso(-8_334_601_228_800), "-262143-01-01T00:00:00");
    assert_eq!(iso(8_210_266_876_799), "+262142-12-31T23:59:59");
}

#[test]
fn iso_tells_moments_apart() {
    let mut seen = Vec::new();
    for seconds in [0, 1, 60, 3600, 86_400, 31 * 86_400, 365 * 86_400, 366 * 86_400] {
        let text = to_iso(Timestamp { seconds });
        assert_eq!(text.len(), 19);
        assert!(!seen.contains(&text));
        seen.push(text);
    }
}

#[test]
fn timestamps_read_back() {
    for (time, days) in [(0u16, 2u16), (10, 99), (11, 100), (65534, 65534), (14399, 15522)] {
        let mut d = vec![3u8; 2];
        d.extend_from_slice(&stamp(time, days));
        let seconds = EPOCH_SECONDS + days as i64 * 86_400 + time as i64 * 6;
        assert_eq!(get_timestamp(&d, 2), Some(Timestamp { seconds }));
    }
}

#[test]
fn unicode_string_without_terminator() {
    let d = units("Ünïcode 😀");
    assert_eq!(get_unicode_string(&d, 0), "Ünïcode 😀");
    assert_eq!(get_unicode_string(&d, 4), "ïcode 😀");
}

#[test]
fn unicode_string_ignores_an_odd_byte() {
    let mut d = units("ab");
    d.push(0x63);
    assert_eq!(get_unicode_string(&d, 0), "ab");
    assert_eq!(get_unicode_string(&[0x63], 0), "");
}

#[test]
fn unicode_string_replaces_lone_surrogates() {
    let mut d = Vec::new();
    for u in [0x41u16, 0xD83D, 0x42, 0xDE00, 0xD83D, 0xDE00, 0xD83D] {
        d.extend_from_slice(&u.to_le_bytes());
    }
    assert_eq!(get_unicode_string(&d, 0), "A\u{FFFD}B\u{FFFD}😀\u{FFFD}");
}
