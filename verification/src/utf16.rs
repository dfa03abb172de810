//! UTF-16 text, as code units and as little-endian bytes.
use crate::util::u16_at;
use vstd::prelude::*;

verus! {

/// Whether a code unit opens a surrogate pair.
pub open spec fn is_high_surrogate(unit: u16) -> bool {
    0xD800 <= unit <= 0xDBFF
}

/// Whether a code unit closes a surrogate pair.
pub open spec fn is_low_surrogate(unit: u16) -> bool {
    0xDC00 <= unit <= 0xDFFF
}

/// The text of a sequence of code units, with U+FFFD for every surrogate that is not part of a pair.
pub open spec fn decode_utf16(units: Seq<u16>) -> Seq<char>
    decreases units.len(),
{
    if units.len() == 0 {
        Seq::empty()
    } else if units.len() >= 2 && is_high_surrogate(units[0]) && is_low_surrogate(units[1]) {
        seq![(0x1_0000 + 0x400 * (units[0] - 0xD800) + (units[1] - 0xDC00)) as char] + decode_utf16(
            units.skip(2),
        )
    } else if is_high_surrogate(units[0]) || is_low_surrogate(units[0]) {
        seq!['\u{FFFD}'] + decode_utf16(units.skip(1))
    } else {
        seq![units[0] as char] + decode_utf16(units.skip(1))
    }
}

/// The code units of one character.
pub open spec fn char_units(c: char) -> Seq<u16> {
    let scalar = c as int;
    if scalar < 0x1_0000 {
        seq![scalar as u16]
    } else {
        seq![
            (0xD800 + (scalar - 0x1_0000) / 0x400) as u16,
            (0xDC00 + (scalar - 0x1_0000) % 0x400) as u16,
        ]
    }
}

/// The code units of a text.
pub open spec fn encode_utf16(text: Seq<char>) -> Seq<u16>
    decreases text.len(),
{
    if text.len() == 0 {
        Seq::empty()
    } else {
        char_units(text[0]) + encode_utf16(text.skip(1))
    }
}

/// The code units stored from byte `offset` on, up to the first zero unit or the end of `data`.
pub open spec fn units_at(data: Seq<u8>, offset: int) -> Seq<u16>
    decreases data.len() - offset,
{
    match u16_at(data, offset) {
        Some(unit) => if unit == 0 {
            Seq::empty()
        } else {
            seq![unit] + units_at(data, offset + 2)
        },
        None => Seq::empty(),
    }
}

/// The little-endian bytes of a sequence of code units.
pub open spec fn unit_bytes(units: Seq<u16>) -> Seq<u8> {
    Seq::new(
        2 * units.len(),
        |i: int|
            if i % 2 == 0 {
                (units[i / 2] % 0x100) as u8
            } else {
                (units[i / 2] / 0x100) as u8
            },
    )
}

/// The text stored from byte `offset` on: UTF-16LE, ended by a zero unit or by the end of `data`.
pub open spec fn text_at(data: Seq<u8>, offset: int) -> Seq<char> {
    decode_utf16(units_at(data, offset))
}

/// `String::from_utf16_lossy`: the decoded text, with U+FFFD in the place of every unpaired
/// surrogate.
#[verifier::external_body]
pub(crate) fn from_utf16_lossy(units: &[u16]) -> (text: String)
    ensures
        text@ == decode_utf16(units@),
{
    String::from_utf16_lossy(units)
}

proof fn lemma_decode_char(c: char, rest: Seq<u16>)
    ensures
        decode_utf16(char_units(c) + rest) == seq![c] + decode_utf16(rest),
{
    let units = char_units(c) + rest;
    if (c as int) < 0x1_0000 {
        assert(units.skip(1) =~= rest);
    } else {
        assert(units.skip(2) =~= rest);
    }
}

/// Decoding undoes encoding.
pub proof fn lemma_decode_encode(text: Seq<char>)
    ensures
        decode_utf16(encode_utf16(text)) == text,
    decreases text.len(),
{
    if text.len() > 0 {
        lemma_decode_encode(text.skip(1));
        lemma_decode_char(text[0], encode_utf16(text.skip(1)));
        assert(seq![text[0]] + text.skip(1) =~= text);
    }
}

proof fn lemma_char_units_nonzero(c: char)
    requires
        c != '\0',
    ensures
        forall|i: int| 0 <= i < char_units(c).len() ==> char_units(c)[i] != 0,
{
}

/// A text without NUL characters has no zero code unit.
proof fn lemma_units_nonzero(text: Seq<char>)
    requires
        forall|i: int| 0 <= i < text.len() ==> text[i] != '\0',
    ensures
        forall|i: int| 0 <= i < encode_utf16(text).len() ==> encode_utf16(text)[i] != 0,
    decreases text.len(),
{
    if text.len() > 0 {
        lemma_char_units_nonzero(text[0]);
        lemma_units_nonzero(text.skip(1));
        let head = char_units(text[0]);
        let tail = encode_utf16(text.skip(1));
        assert forall|i: int| 0 <= i < (head + tail).len() implies (head + tail)[i] != 0 by {
            if i >= head.len() {
                assert((head + tail)[i] == tail[i - head.len()]);
            }
        }
    }
}

proof fn lemma_units_of_bytes(before: Seq<u8>, units: Seq<u16>, after: Seq<u8>)
    requires
        forall|i: int| 0 <= i < units.len() ==> units[i] != 0,
        after.len() < 2 || u16_at(after, 0) == Some(0u16),
    ensures
        units_at(before + unit_bytes(units) + after, before.len() as int) == units,
    decreases units.len(),
{
    let data = before + unit_bytes(units) + after;
    let offset = before.len() as int;
    if units.len() == 0 {
        if after.len() >= 2 {
            assert(u16_at(data, offset) == u16_at(after, 0));
        }
    } else {
        let head = unit_bytes(units).take(2);
        let tail = units.skip(1);
        assert(data =~= (before + head) + unit_bytes(tail) + after);
        lemma_units_of_bytes(before + head, tail, after);
        assert(u16_at(data, offset) == Some(units[0]));
        assert(seq![units[0]] + tail =~= units);
    }
}

/// A text without NUL characters that is written as UTF-16LE is read back, wherever it stands,
/// provided that a zero unit or the end of the data follows it.
pub proof fn lemma_text_roundtrip(before: Seq<u8>, text: Seq<char>, after: Seq<u8>)
    requires
        forall|i: int| 0 <= i < text.len() ==> text[i] != '\0',
        after.len() < 2 || u16_at(after, 0) == Some(0u16),
    ensures
        text_at(before + unit_bytes(encode_utf16(text)) + after, before.len() as int) == text,
{
    lemma_units_nonzero(text);
    lemma_units_of_bytes(before, encode_utf16(text), after);
    lemma_decode_encode(text);
}

/// The code units of a text are all the units from its start on, none of them zero, up to a zero unit
/// or to where less than a unit is left.
pub proof fn lemma_units_at(data: Seq<u8>, offset: int)
    requires
        0 <= offset,
    ensures
        ({
            let units = units_at(data, offset);
            let end = offset + 2 * units.len();
            &&& units.len() > 0 ==> end <= data.len()
            &&& forall|i: int|
                0 <= i < units.len() ==> {
                    &&& #[trigger] units[i] == data[offset + 2 * i] + 256 * data[offset + 2 * i + 1]
                    &&& units[i] != 0
                }
            &&& end + 2 > data.len() || (data[end] == 0 && data[end + 1] == 0)
        }),
    decreases data.len() - offset,
{
    if offset + 2 <= data.len() && u16_at(data, offset) != Some(0u16) {
        lemma_units_at(data, offset + 2);
        let units = units_at(data, offset);
        let rest = units_at(data, offset + 2);
        assert forall|i: int| 0 <= i < units.len() implies {
            &&& #[trigger] units[i] == data[offset + 2 * i] + 256 * data[offset + 2 * i + 1]
            &&& units[i] != 0
        } by {
            if i > 0 {
                assert(units[i] == rest[i - 1]);
                assert(offset + 2 + 2 * (i - 1) == offset + 2 * i);
            }
        }
        assert(units.len() == rest.len() + 1);
        let end = offset + 2 * units.len();
        assert(offset + 2 + 2 * rest.len() == end);
        assert(end + 2 > data.len() || (data[end] == 0 && data[end + 1] == 0));
    } else {
        assert(units_at(data, offset).len() == 0);
        if offset + 2 <= data.len() {
            assert(data[offset] + 256 * data[offset + 1] == 0);
        }
    }
}

/// How units are read one after the other: a unit that is no surrogate is the character of its
/// number, two surrogates in order make one character, and any other surrogate makes U+FFFD.
pub proof fn lemma_decode_step(units: Seq<u16>)
    ensures
        units.len() == 0 ==> decode_utf16(units).len() == 0,
        units.len() > 0 && (units[0] < 0xD800 || 0xDFFF < units[0]) ==> decode_utf16(units)
            == seq![units[0] as char] + decode_utf16(units.skip(1)),
        units.len() >= 2 && 0xD800 <= units[0] <= 0xDBFF && 0xDC00 <= units[1] <= 0xDFFF
            ==> decode_utf16(units) == seq![
            (0x1_0000 + 1024 * (units[0] - 0xD800) + (units[1] - 0xDC00)) as char,
        ] + decode_utf16(units.skip(2)),
        units.len() > 0 && 0xDC00 <= units[0] <= 0xDFFF ==> decode_utf16(units) == seq!['\u{FFFD}']
            + decode_utf16(units.skip(1)),
        units.len() > 0 && 0xD800 <= units[0] <= 0xDBFF && (units.len() == 1 || units[1] < 0xDC00
            || 0xDFFF < units[1]) ==> decode_utf16(units) == seq!['\u{FFFD}'] + decode_utf16(
            units.skip(1),
        ),
{
}

/// The text at an offset is that of its code units, all of them and nothing else.
pub proof fn lemma_text_of_units(data: Seq<u8>, offset: int)
    ensures
        text_at(data, offset) == decode_utf16(units_at(data, offset)),
{
}

} // verus!
