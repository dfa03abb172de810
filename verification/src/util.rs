//! Low-level decoders. MPP stores every integer little-endian, and dates as an offset from a fixed
//! epoch: a day count and a time of day in tenths of a minute.
use crate::calendar::{
    civil_date, days_before_month, format_seconds, iso_text, lemma_year_bounds, midnight_seconds, Civil,
    Timestamp, ISO_PATTERN, SECONDS_PER_DAY,
};
use crate::utf16::{from_utf16_lossy, text_at, units_at};
use vstd::prelude::*;

verus! {

/// The unsigned 16-bit integer stored at byte `offset`, if both its bytes lie in `data`.
pub open spec fn u16_at(data: Seq<u8>, offset: int) -> Option<u16> {
    if 0 <= offset && offset + 2 <= data.len() {
        Some((data[offset] + 0x100 * data[offset + 1]) as u16)
    } else {
        None
    }
}

/// The unsigned 32-bit integer stored at byte `offset`, if all its bytes lie in `data`.
pub open spec fn u32_at(data: Seq<u8>, offset: int) -> Option<u32> {
    if 0 <= offset && offset + 4 <= data.len() {
        Some(
            (data[offset] + 0x100 * data[offset + 1] + 0x1_0000 * data[offset + 2] + 0x100_0000
                * data[offset + 3]) as u32,
        )
    } else {
        None
    }
}

/// The two's complement reading of a 16-bit word.
pub open spec fn signed16(word: u16) -> i16 {
    if word < 0x8000 {
        word as i16
    } else {
        (word - 0x1_0000) as i16
    }
}

/// The two's complement reading of a 32-bit word.
pub open spec fn signed32(word: u32) -> i32 {
    if word < 0x8000_0000 {
        word as i32
    } else {
        (word - 0x1_0000_0000) as i32
    }
}

/// The signed 16-bit integer stored at byte `offset`.
pub open spec fn i16_at(data: Seq<u8>, offset: int) -> Option<i16> {
    match u16_at(data, offset) {
        Some(word) => Some(signed16(word)),
        None => None,
    }
}

/// The signed 32-bit integer stored at byte `offset`.
pub open spec fn i32_at(data: Seq<u8>, offset: int) -> Option<i32> {
    match u32_at(data, offset) {
        Some(word) => Some(signed32(word)),
        None => None,
    }
}

/// The bytes of an unsigned 16-bit integer.
pub open spec fn u16_bytes(value: u16) -> Seq<u8> {
    seq![(value % 0x100) as u8, (value / 0x100) as u8]
}

/// The bytes of an unsigned 32-bit integer.
pub open spec fn u32_bytes(value: u32) -> Seq<u8> {
    seq![
        (value % 0x100) as u8,
        (value / 0x100 % 0x100) as u8,
        (value / 0x1_0000 % 0x100) as u8,
        (value / 0x100_0000) as u8,
    ]
}

/// The bytes of a signed 32-bit integer.
pub open spec fn i32_bytes(value: i32) -> Seq<u8> {
    u32_bytes(
        if value < 0 {
            (value + 0x1_0000_0000) as u32
        } else {
            value as u32
        },
    )
}

/// A 16-bit integer is read back from wherever its bytes stand.
pub proof fn lemma_u16_roundtrip(data: Seq<u8>, offset: int, value: u16)
    requires
        0 <= offset,
        offset + 2 <= data.len(),
        data.subrange(offset, offset + 2) == u16_bytes(value),
    ensures
        u16_at(data, offset) == Some(value),
{
    let bytes = data.subrange(offset, offset + 2);
    assert(bytes[0] == data[offset] && bytes[1] == data[offset + 1]);
}

/// A 32-bit integer is read back from wherever its bytes stand.
pub proof fn lemma_u32_roundtrip(data: Seq<u8>, offset: int, value: u32)
    requires
        0 <= offset,
        offset + 4 <= data.len(),
        data.subrange(offset, offset + 4) == u32_bytes(value),
    ensures
        u32_at(data, offset) == Some(value),
{
    let bytes = data.subrange(offset, offset + 4);
    assert(bytes[0] == data[offset] && bytes[1] == data[offset + 1]);
    assert(bytes[2] == data[offset + 2] && bytes[3] == data[offset + 3]);
}

/// A signed 32-bit integer is read back from wherever its bytes stand.
pub proof fn lemma_i32_roundtrip(data: Seq<u8>, offset: int, value: i32)
    requires
        0 <= offset,
        offset + 4 <= data.len(),
        data.subrange(offset, offset + 4) == i32_bytes(value),
    ensures
        i32_at(data, offset) == Some(value),
{
    let word = if value < 0 {
        (value + 0x1_0000_0000) as u32
    } else {
        value as u32
    };
    lemma_u32_roundtrip(data, offset, word);
}

/// The bytes of a timestamp: a time of day in units of six seconds, and a count of days from the
/// epoch.
pub open spec fn stamp_bytes(time: u16, days: u16) -> Seq<u8> {
    u16_bytes(time) + u16_bytes(days)
}

/// A timestamp is read back from wherever its bytes stand. Of a day count below 100, only a whole
/// minute is.
pub proof fn lemma_stamp_roundtrip(data: Seq<u8>, offset: int, time: u16, days: u16)
    requires
        0 <= offset,
        offset + 4 <= data.len(),
        data.subrange(offset, offset + 4) == stamp_bytes(time, days),
        time < 65535,
        2 <= days < 65535,
        days < 100 ==> time % 10 == 0,
    ensures
        stamp_at(data, offset) == Some(
            Timestamp { seconds: (EPOCH_SECONDS + days * 86_400 + time * 6) as i64 },
        ),
{
    let bytes = stamp_bytes(time, days);
    assert(data.subrange(offset, offset + 2) =~= bytes.subrange(0, 2));
    assert(bytes.subrange(0, 2) =~= u16_bytes(time));
    assert(data.subrange(offset + 2, offset + 4) =~= bytes.subrange(2, 4));
    assert(bytes.subrange(2, 4) =~= u16_bytes(days));
    lemma_u16_roundtrip(data, offset, time);
    lemma_u16_roundtrip(data, offset + 2, days);
}

/// Every timestamp that a file can hold lies in a year from 1984 to 2163, so that it can be written.
pub proof fn lemma_stamp_valid(data: Seq<u8>, offset: int)
    ensures
        stamp_at(data, offset) matches Some(moment) ==> {
            &&& moment.valid()
            &&& 1984 <= civil_date(moment.seconds as int / 86_400).year <= 2163
        },
{
    if let Some(moment) = stamp_at(data, offset) {
        lemma_year_bounds(moment.seconds as int / 86_400, 1984, 2163);
    }
}

/// Reads the unsigned 16-bit integer at `offset`.
pub fn get_u16(data: &[u8], offset: usize) -> (value: Option<u16>)
    ensures
        value == u16_at(data@, offset as int),
{
    if offset <= data.len() && data.len() - offset >= 2 {
        Some(data[offset] as u16 + 0x100 * data[offset + 1] as u16)
    } else {
        None
    }
}

/// Reads the signed 16-bit integer at `offset`.
pub fn get_i16(data: &[u8], offset: usize) -> (value: Option<i16>)
    ensures
        value == i16_at(data@, offset as int),
{
    match get_u16(data, offset) {
        Some(word) => {
            assert(word as i16 == (if word < 0x8000 { word as int } else { word - 0x1_0000 }))
                by (bit_vector);
            Some(word as i16)
        },
        None => None,
    }
}

/// Reads the unsigned 32-bit integer at `offset`.
pub fn get_u32(data: &[u8], offset: usize) -> (value: Option<u32>)
    ensures
        value == u32_at(data@, offset as int),
{
    if offset <= data.len() && data.len() - offset >= 4 {
        Some(
            data[offset] as u32 + 0x100 * data[offset + 1] as u32 + 0x1_0000 * data[offset + 2] as u32
                + 0x100_0000 * data[offset + 3] as u32,
        )
    } else {
        None
    }
}

/// Reinterprets a 32-bit word as a two's complement integer.
pub fn to_signed(word: u32) -> (value: i32)
    ensures
        value == signed32(word),
{
    assert(word as i32 == (if word < 0x8000_0000 { word as int } else { word - 0x1_0000_0000 }))
        by (bit_vector);
    word as i32
}

/// Reads the signed 32-bit integer at `offset`.
pub fn get_i32(data: &[u8], offset: usize) -> (value: Option<i32>)
    ensures
        value == i32_at(data@, offset as int),
{
    match get_u32(data, offset) {
        Some(word) => Some(to_signed(word)),
        None => None,
    }
}

/// The unsigned 64-bit integer stored at byte `offset`, if all its bytes lie in `data`.
pub open spec fn u64_at(data: Seq<u8>, offset: int) -> Option<u64> {
    match (u32_at(data, offset), u32_at(data, offset + 4)) {
        (Some(low), Some(high)) => Some((low + 0x1_0000_0000 * high) as u64),
        _ => None,
    }
}

/// Whether 64 bits are those of a double-precision number that is not a number: all bits of the
/// exponent are set and not all of the fraction are clear.
pub open spec fn is_nan(bits: u64) -> bool {
    bits % 0x8000_0000_0000_0000 > 0x7FF0_0000_0000_0000
}

/// The bits of the double-precision number stored at byte `offset`, those of zero for one that is
/// not a number.
pub open spec fn f64_bits_at(data: Seq<u8>, offset: int) -> Option<u64> {
    match u64_at(data, offset) {
        Some(bits) => Some(
            if is_nan(bits) {
                0
            } else {
                bits
            },
        ),
        None => None,
    }
}

/// Reads the bits of the double-precision number at `offset`.
pub fn get_f64_bits(data: &[u8], offset: usize) -> (bits: Option<u64>)
    ensures
        bits == f64_bits_at(data@, offset as int),
{
    if offset > data.len() || data.len() - offset < 8 {
        return None;
    }
    match (get_u32(data, offset), get_u32(data, offset + 4)) {
        (Some(low), Some(high)) => {
            let bits: u64 = low as u64 + 0x1_0000_0000 * high as u64;
            if bits % 0x8000_0000_0000_0000 > 0x7FF0_0000_0000_0000 {
                Some(0)
            } else {
                Some(bits)
            }
        },
        _ => None,
    }
}

/// 1983-12-31T00:00:00, the date epoch of Microsoft Project, in seconds from 1970-01-01T00:00:00.
pub const EPOCH_SECONDS: i64 = 441_676_800;

/// The timestamp stored at byte `offset`: a time of day in units of six seconds, then a count of
/// days from the epoch. Day counts 0, 1 and 65535 mean that there is none, and so does a day count
/// below 100 with a time of day that is no whole minute. A time of day of 65535 means midnight.
pub open spec fn stamp_at(data: Seq<u8>, offset: int) -> Option<Timestamp> {
    match (u16_at(data, offset), u16_at(data, offset + 2)) {
        (Some(time), Some(days)) => {
            let units = if time == 65535 {
                0
            } else {
                time as int
            };
            let seconds = EPOCH_SECONDS + days * 86_400 + units * 6;
            if days <= 1 || days == 65535 || (days < 100 && seconds % 60 != 0) {
                None
            } else {
                Some(Timestamp { seconds: seconds as i64 })
            }
        },
        _ => None,
    }
}

/// The date epoch of Microsoft Project, 1983-12-31 at midnight.
pub fn epoch() -> (moment: Timestamp)
    ensures
        moment.seconds == EPOCH_SECONDS,
        (Civil { year: 1983, month: 12, day: 31 }).day_number() * 86_400 == moment.seconds,
{
    let midnight = midnight_seconds(1983, 12, 31);
    proof {
        reveal_with_fuel(days_before_month, 13);
        assert((Civil { year: 1983, month: 12, day: 31 }).day_number() == 5112);
    }
    Timestamp { seconds: midnight.unwrap() }
}

/// Reads the timestamp at `offset`; see `stamp_at` for its layout and for what counts as absent.
pub fn get_timestamp(data: &[u8], offset: usize) -> (moment: Option<Timestamp>)
    ensures
        moment == stamp_at(data@, offset as int),
{
    if offset > data.len() || data.len() - offset < 4 {
        return None;
    }
    let days: i64 = match get_u16(data, offset + 2) {
        Some(days) => days as i64,
        None => return None,
    };
    if days <= 1 || days == 65535 {
        return None;
    }
    let time: i64 = match get_u16(data, offset) {
        Some(65535) => 0,
        Some(time) => time as i64,
        None => return None,
    };
    let seconds: i64 = epoch().seconds + days * SECONDS_PER_DAY + time * 6;
    if days < 100 && seconds % 60 != 0 {
        return None;
    }
    Some(Timestamp { seconds })
}

/// Reads the text at `offset`: UTF-16LE, up to a zero unit or the end of `data`.
pub fn get_unicode_string(data: &[u8], offset: usize) -> (text: String)
    ensures
        text@ == text_at(data@, offset as int),
{
    let mut units: Vec<u16> = Vec::new();
    let mut i: usize = offset;
    while i < data.len() && data.len() - i >= 2
        invariant
            units_at(data@, offset as int) == units@ + units_at(data@, i as int),
        ensures
            units_at(data@, offset as int) == units@,
        decreases data.len() - i,
    {
        let unit: u16 = data[i] as u16 + 0x100 * data[i + 1] as u16;
        if unit == 0 {
            assert(units@ + Seq::<u16>::empty() =~= units@);
            break;
        }
        let ghost before = units@;
        units.push(unit);
        i += 2;
        assert(before + (seq![unit] + units_at(data@, i as int)) =~= units@ + units_at(
            data@,
            i as int,
        ));
    }
    from_utf16_lossy(units.as_slice())
}

/// Writes a timestamp in ISO 8601 form, `YYYY-MM-DDTHH:MM:SS`.
pub fn to_iso(moment: Timestamp) -> (text: String)
    requires
        moment.valid(),
    ensures
        text@ == iso_text(moment.seconds as int),
{
    format_seconds(moment.seconds, ISO_PATTERN)
}

/// A 16-bit integer is there if both its bytes are, and its first byte counts ones, its second 256s.
pub proof fn lemma_u16_value(data: Seq<u8>, offset: int)
    ensures
        0 <= offset && offset + 2 <= data.len() ==> (u16_at(data, offset) matches Some(value) && value
            == data[offset] + 256 * data[offset + 1]),
        !(0 <= offset && offset + 2 <= data.len()) ==> u16_at(data, offset) is None,
{
}

/// A 32-bit integer is there if all its bytes are, and each byte counts 256 times as much as the one
/// before it.
pub proof fn lemma_u32_value(data: Seq<u8>, offset: int)
    ensures
        0 <= offset && offset + 4 <= data.len() ==> (u32_at(data, offset) matches Some(value) && value
            == data[offset] + 256 * (data[offset + 1] + 256 * (data[offset + 2] + 256 * data[offset
            + 3]))),
        !(0 <= offset && offset + 4 <= data.len()) ==> u32_at(data, offset) is None,
{
}

/// A signed integer has the same bytes as the unsigned one from which it differs by nothing or by the
/// number of words.
pub proof fn lemma_signed_value(data: Seq<u8>, offset: int)
    ensures
        0 <= offset && offset + 2 <= data.len() ==> (i16_at(data, offset) matches Some(value) && {
            let word = data[offset] + 256 * data[offset + 1];
            value == word || value == word - 65_536
        }),
        !(0 <= offset && offset + 2 <= data.len()) ==> i16_at(data, offset) is None,
        0 <= offset && offset + 4 <= data.len() ==> (i32_at(data, offset) matches Some(value) && {
            let word = data[offset] + 256 * (data[offset + 1] + 256 * (data[offset + 2] + 256
                * data[offset + 3]));
            value == word || value == word - 4_294_967_296
        }),
        !(0 <= offset && offset + 4 <= data.len()) ==> i32_at(data, offset) is None,
{
}

/// A word and its two's complement reading differ by nothing or by the number of words.
pub proof fn lemma_signed32_value(word: u32)
    ensures
        signed32(word) == word || signed32(word) == word - 4_294_967_296,
{
}

/// The bits of a double are those of its eight bytes, unless all eleven bits of the exponent are set
/// and some of the fraction is: then it is no number, and zero takes its place.
pub proof fn lemma_f64_bits_value(data: Seq<u8>, offset: int)
    ensures
        0 <= offset && offset + 8 <= data.len() ==> (f64_bits_at(data, offset) matches Some(bits) && {
            let low = data[offset] + 256 * (data[offset + 1] + 256 * (data[offset + 2] + 256
                * data[offset + 3]));
            let high = data[offset + 4] + 256 * (data[offset + 5] + 256 * (data[offset + 6] + 256
                * data[offset + 7]));
            let is_number = high / 1_048_576 % 2048 != 2047 || (high % 1_048_576 == 0 && low == 0);
            &&& is_number ==> bits == low + 4_294_967_296 * high
            &&& !is_number ==> bits == 0
        }),
        !(0 <= offset && offset + 8 <= data.len()) ==> f64_bits_at(data, offset) is None,
{
}

/// A day count of 0, 1 or 65535 means that there is no timestamp, whatever the time of day, and so do
/// bytes that are not all there.
pub proof fn lemma_no_timestamp(data: Seq<u8>, offset: int)
    ensures
        0 <= offset && offset + 4 <= data.len() ==> {
            let days = data[offset + 2] + 256 * data[offset + 3];
            days == 0 || days == 1 || days == 65_535 ==> stamp_at(data, offset) is None
        },
        !(0 <= offset && offset + 4 <= data.len()) ==> stamp_at(data, offset) is None,
{
}

/// Any other day count counts days from 1983-12-31, 441676800 seconds after 1970-01-01. The time of
/// day counts units of six seconds from midnight, and 65535 means midnight too. Only where the day
/// count is below 100 must the time of day be a whole minute, that is, ten such units.
pub proof fn lemma_timestamp_value(data: Seq<u8>, offset: int)
    requires
        0 <= offset,
        offset + 4 <= data.len(),
        2 <= data[offset + 2] + 256 * data[offset + 3] <= 65_534,
    ensures
        ({
            let time = data[offset] + 256 * data[offset + 1];
            let days = data[offset + 2] + 256 * data[offset + 3];
            let moment = stamp_at(data, offset);
            &&& moment is Some <==> days >= 100 || time == 65_535 || time % 10 == 0
            &&& moment is Some && time != 65_535 ==> moment->0.seconds == 441_676_800 + 86_400 * days
                + 6 * time
            &&& moment is Some && time == 65_535 ==> moment->0.seconds == 441_676_800 + 86_400 * days
        }),
{
}

} // verus!
