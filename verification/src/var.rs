//! Variable-length data: `VarMeta` (the index) and `Var2Data` (the store).
use crate::text::{hex_word, with_hex};
use crate::utf16::{encode_utf16, lemma_text_roundtrip, text_at, unit_bytes};
use crate::util::{
    get_u16, get_u32, get_unicode_string, i32_at, i32_bytes, lemma_i32_roundtrip,
    lemma_u16_roundtrip, lemma_u32_roundtrip, to_signed, u16_at, u16_bytes, u32_at, u32_bytes,
};
use std::collections::BTreeMap;
use vstd::prelude::*;
use vstd::seq_lib::lemma_sorted_unique;
use vstd::std_specs::cmp::OrdSpec;
use vstd::std_specs::iter::IteratorSpec;

verus! {

broadcast use vstd::laws_cmp::group_laws_cmp;

/// The first word of a `VarMeta` stream. Some files have a zero there.
pub const MAGIC: u32 = 0xFADF_ADBA;

/// The size of the header of a `VarMeta` stream.
pub const VAR_META_HEADER_SIZE: usize = 24;

/// The size of each of the records behind that header.
pub const VAR_META_RECORD_SIZE: usize = 12;

/// One record of a `VarMeta` stream: where the value of a field of an item is stored.
pub struct VarRecord {
    pub unique_id: i32,
    pub offset: i32,
    pub type_key: i32,
}

/// What a `VarMeta` stream says.
#[verifier::ext_equal]
pub struct VarIndex {
    /// The offset of the value of each field, by unique id and field key.
    pub entries: Map<(i32, i32), i32>,
    /// The unique ids that have a field.
    pub ids: Set<i32>,
    /// All offsets, in ascending order.
    pub offsets: Seq<i32>,
}

/// The record that starts at byte `pos`: unique id, offset and field key.
pub open spec fn record_at(data: Seq<u8>, pos: int) -> VarRecord {
    VarRecord {
        unique_id: i32_at(data, pos)->0,
        offset: i32_at(data, pos + 4)->0,
        type_key: u16_at(data, pos + 8)->0 as i32,
    }
}

/// The number of records of a `VarMeta` stream: as many as the header announces, or as many as the
/// stream has room for, whichever is less.
pub open spec fn record_count(data: Seq<u8>) -> int {
    let announced = u32_at(data, 8)->0 as int;
    let room = if data.len() < 24 {
        0
    } else {
        (data.len() - 24) / 12
    };
    if announced < room {
        announced
    } else {
        room
    }
}

/// The records of a `VarMeta` stream.
pub open spec fn var_records(data: Seq<u8>) -> Seq<VarRecord> {
    Seq::new(record_count(data) as nat, |i: int| record_at(data, 24 + 12 * i))
}

/// The offsets by unique id and field key; of several records with the same two, the last counts.
pub open spec fn entries_of(records: Seq<VarRecord>) -> Map<(i32, i32), i32>
    decreases records.len(),
{
    if records.len() == 0 {
        Map::empty()
    } else {
        let last = records.last();
        entries_of(records.drop_last()).insert((last.unique_id, last.type_key), last.offset)
    }
}

/// The unique ids of a sequence of records.
pub open spec fn ids_of(records: Seq<VarRecord>) -> Set<i32> {
    records.map_values(|r: VarRecord| r.unique_id).to_set()
}

/// The offsets of a sequence of records.
pub open spec fn offsets_of(records: Seq<VarRecord>) -> Seq<i32> {
    records.map_values(|r: VarRecord| r.offset)
}

/// The order of the offsets.
pub open spec fn ascending() -> spec_fn(i32, i32) -> bool {
    |a: i32, b: i32| a <= b
}

/// The index that a sequence of records amounts to.
pub open spec fn var_index(records: Seq<VarRecord>) -> VarIndex {
    VarIndex {
        entries: entries_of(records),
        ids: ids_of(records),
        offsets: offsets_of(records).sort_by(ascending()),
    }
}

/// What parsing a `VarMeta` stream gives: its index, or an error message.
pub open spec fn var_meta_outcome(data: Seq<u8>) -> Result<VarIndex, Seq<char>> {
    match u32_at(data, 0) {
        Some(magic) => if magic != 0 && magic != MAGIC {
            Err("VarMeta: bad magic "@ + hex_word(magic))
        } else if u32_at(data, 8) is None {
            Err("VarMeta: truncated header"@)
        } else {
            Ok(var_index(var_records(data)))
        },
        None => Err("VarMeta: truncated header"@),
    }
}

/// The index of a `Var2Data` stream: from unique id and field key to an offset.
pub struct VarMeta {
    table: BTreeMap<i32, BTreeMap<i32, i32>>,
    offsets: Vec<i32>,
}

/// The entries of a table of tables.
pub closed spec fn table_entries(table: Map<i32, BTreeMap<i32, i32>>) -> Map<(i32, i32), i32> {
    Map::new(
        |k: (i32, i32)| table.contains_key(k.0) && table[k.0]@.contains_key(k.1),
        |k: (i32, i32)| table[k.0]@[k.1],
    )
}

impl View for VarMeta {
    type V = VarIndex;

    closed spec fn view(&self) -> VarIndex {
        VarIndex {
            entries: table_entries(self.table@),
            ids: self.table@.dom(),
            offsets: self.offsets@,
        }
    }
}

/// `slice::sort_unstable` on integers: the same items, in ascending order.
#[verifier::external_body]
fn sort_offsets(offsets: &mut Vec<i32>)
    ensures
        final(offsets)@.to_multiset() == old(offsets)@.to_multiset(),
        forall|i: int, j: int|
            0 <= i <= j < final(offsets)@.len() ==> final(offsets)@[i] <= final(offsets)@[j],
{
    offsets.sort_unstable();
}

impl VarMeta {
    /// The parts of the index agree.
    #[verifier::type_invariant]
    spec fn index_well_formed(self) -> bool {
        self@.well_formed()
    }

    /// Parses a `VarMeta` stream: a header of 24 bytes (magic, unknown, item count, two unknown,
    /// data size) and records of 12 bytes (unique id, offset, field key, unknown).
    pub fn parse(data: &[u8]) -> (meta: Result<Self, String>)
        ensures
            match (meta, var_meta_outcome(data@)) {
                (Ok(m), Ok(index)) => m@ == index,
                (Err(message), Err(text)) => message@ == text,
                _ => false,
            },
    {
        let magic: u32 = match get_u32(data, 0) {
            Some(magic) => magic,
            None => return Err("VarMeta: truncated header".to_owned()),
        };
        if magic != 0 && magic != MAGIC {
            return Err(with_hex("VarMeta: bad magic ", magic));
        }
        let item_count: u32 = match get_u32(data, 8) {
            Some(count) => count,
            None => return Err("VarMeta: truncated header".to_owned()),
        };
        let mut table: BTreeMap<i32, BTreeMap<i32, i32>> = BTreeMap::new();
        let mut offsets: Vec<i32> = Vec::new();
        let mut pos: usize = VAR_META_HEADER_SIZE;
        let mut done: u32 = 0;
        let ghost records = var_records(data@);
        while done < item_count && pos <= data.len() && data.len() - pos >= VAR_META_RECORD_SIZE
            invariant
                u32_at(data@, 8) == Some(item_count),
                records == var_records(data@),
                done <= records.len(),
                pos == 24 + 12 * done,
                pos <= data.len() || done == 0,
                table_entries(table@) == entries_of(records.take(done as int)),
                table@.dom() == ids_of(records.take(done as int)),
                offsets@ == offsets_of(records.take(done as int)),
            decreases item_count - done,
        {
            let unique_id: i32 = to_signed(get_u32(data, pos).unwrap());
            let offset: i32 = to_signed(get_u32(data, pos + 4).unwrap());
            let type_key: i32 = get_u16(data, pos + 8).unwrap() as i32;
            let ghost before = table@;
            let mut fields: BTreeMap<i32, i32> = match table.remove(&unique_id) {
                Some(fields) => fields,
                None => BTreeMap::new(),
            };
            fields.insert(type_key, offset);
            table.insert(unique_id, fields);
            offsets.push(offset);
            proof {
                let taken = records.take(done as int);
                let next = records.take(done + 1);
                let record = records[done as int];
                assert(record == VarRecord { unique_id, offset, type_key });
                assert(next.drop_last() =~= taken);
                assert(table_entries(table@) =~= table_entries(before).insert(
                    (unique_id, type_key),
                    offset,
                ));
                assert(next =~= taken.push(record));
                lemma_ids_push(taken, record);
                assert(table@.dom() =~= before.dom().insert(unique_id));
            }
            pos += VAR_META_RECORD_SIZE;
            done += 1;
        }
        let ghost unsorted = offsets@;
        sort_offsets(&mut offsets);
        proof {
            assert(records.take(done as int) =~= records);
            lemma_sorted_offsets(unsorted, offsets@);
            lemma_index_well_formed(records);
        }
        Ok(VarMeta { table, offsets })
    }

    /// All offsets, in ascending order.
    pub fn offsets(&self) -> (offsets: &[i32])
        ensures
            offsets@ == self@.offsets,
    {
        self.offsets.as_slice()
    }

    /// Where the value of a field of an item is stored.
    pub fn offset(&self, unique_id: i32, type_key: i32) -> (offset: Option<i32>)
        ensures
            offset == self@.offset(unique_id, type_key),
            offset matches Some(o) ==> self@.offsets.contains(o),
    {
        proof {
            use_type_invariant(self);
        }
        match self.table.get(&unique_id) {
            Some(fields) => match fields.get(&type_key) {
                Some(offset) => Some(*offset),
                None => None,
            },
            None => None,
        }
    }

    /// The unique ids that have a field, in ascending order.
    pub fn unique_ids(&self) -> (ids: Vec<i32>)
        ensures
            ids@.to_set() == self@.ids,
            forall|i: int, j: int| 0 <= i < j < ids@.len() ==> ids@[i] < ids@[j],
    {
        let mut ids: Vec<i32> = Vec::new();
        let ghost keys = vstd::std_specs::btree::spec_keys_iter(&self.table).remaining();
        for key in it: self.table.keys()
            invariant
                it.seq() == keys,
                ids@ == keys.unref().take(it.index()),
        {
            ids.push(*key);
            assert(ids@ =~= keys.unref().take(it.index() + 1));
        }
        assert(ids@ =~= keys.unref());
        assert(vstd::std_specs::btree::increasing_seq(keys));
        assert forall|i: int, j: int| 0 <= i < j < ids@.len() implies ids@[i] < ids@[j] by {
            assert(OrdSpec::cmp_spec(&keys[i], &keys[j]) is Less);
        }
        ids
    }
}

impl VarIndex {
    /// Whether the parts of the index agree: the offset of every field is among the offsets, these
    /// are in ascending order, and the unique ids are those that have a field.
    pub open spec fn well_formed(self) -> bool {
        &&& forall|key: (i32, i32)| #[trigger]
            self.entries.contains_key(key) ==> self.offsets.contains(self.entries[key])
        &&& forall|i: int, j: int|
            0 <= i <= j < self.offsets.len() ==> self.offsets[i] <= self.offsets[j]
        &&& forall|id: i32| #[trigger]
            self.ids.contains(id) <==> exists|type_key: i32| #[trigger]
                self.entries.contains_key((id, type_key))
    }

    /// Where the value of a field of an item is stored.
    pub open spec fn offset(self, unique_id: i32, type_key: i32) -> Option<i32> {
        if self.entries.contains_key((unique_id, type_key)) {
            Some(self.entries[(unique_id, type_key)])
        } else {
            None
        }
    }
}

/// The value stored at an offset: a length of four bytes, then that many bytes. There is none where
/// the offset is negative or the value does not lie in `data`.
pub open spec fn value_at(data: Seq<u8>, offset: i32) -> Option<Seq<u8>> {
    match u32_at(data, offset as int) {
        Some(size) => if offset + 4 + size <= data.len() {
            Some(data.subrange(offset + 4, offset + 4 + size))
        } else {
            None
        },
        None => None,
    }
}

/// The values of a `Var2Data` stream, by their offsets.
pub open spec fn var_values(offsets: Seq<i32>, data: Seq<u8>) -> Map<i32, Seq<u8>> {
    Map::new(
        |offset: i32| offsets.contains(offset) && value_at(data, offset) is Some,
        |offset: i32| value_at(data, offset)->0,
    )
}

/// The value of a field of an item.
pub open spec fn field_value(
    index: VarIndex,
    values: Map<i32, Seq<u8>>,
    unique_id: i32,
    type_key: i32,
) -> Option<Seq<u8>> {
    match index.offset(unique_id, type_key) {
        Some(offset) => if values.contains_key(offset) {
            Some(values[offset])
        } else {
            None
        },
        None => None,
    }
}

/// The value of a field of an item, read as a text.
pub open spec fn field_text(
    index: VarIndex,
    values: Map<i32, Seq<u8>>,
    unique_id: i32,
    type_key: i32,
) -> Option<Seq<char>> {
    match field_value(index, values, unique_id, type_key) {
        Some(value) => Some(text_at(value, 0)),
        None => None,
    }
}

/// The bytes behind an optional slice.
pub open spec fn slice_view(slice: Option<&[u8]>) -> Option<Seq<u8>> {
    match slice {
        Some(bytes) => Some(bytes@),
        None => None,
    }
}

/// The values of the variable-length fields, by their offsets.
pub struct Var2Data {
    map: BTreeMap<i32, Vec<u8>>,
}

impl View for Var2Data {
    type V = Map<i32, Seq<u8>>;

    closed spec fn view(&self) -> Map<i32, Seq<u8>> {
        self.map@.map_values(|value: Vec<u8>| value@)
    }
}

impl Var2Data {
    /// Takes the value at each offset of `meta` out of a `Var2Data` stream.
    pub fn parse(meta: &VarMeta, data: &[u8]) -> (values: Self)
        ensures
            values@ == var_values(meta@.offsets, data@),
    {
        let mut map: BTreeMap<i32, Vec<u8>> = BTreeMap::new();
        let offsets: &[i32] = meta.offsets();
        let mut done: usize = 0;
        let view = Ghost(|value: Vec<u8>| value@);
        while done < offsets.len()
            invariant
                done <= offsets.len(),
                view@ == (|value: Vec<u8>| value@),
                map@.map_values(view@) == var_values(offsets@.take(done as int), data@),
            decreases offsets.len() - done,
        {
            let offset: i32 = offsets[done];
            let ghost before = map@;
            if offset >= 0 {
                let start: usize = offset as usize;
                match get_u32(data, start) {
                    Some(size) => {
                        if size as usize <= data.len() - start - 4 {
                            let value = vstd::slice::slice_to_vec(
                                vstd::slice::slice_subrange(data, start + 4, start + 4 + size as usize),
                            );
                            map.insert(offset, value);
                        }
                    },
                    None => {},
                }
            }
            proof {
                let taken = offsets@.take(done as int);
                let next = offsets@.take(done + 1);
                assert(next =~= taken.push(offset));
                lemma_values_push(taken, data@, offset);
                match value_at(data@, offset) {
                    Some(value) => {
                        assert(map@.map_values(view@) =~= before.map_values(view@).insert(
                            offset,
                            value,
                        ));
                    },
                    None => {},
                }
            }
            done += 1;
        }
        assert(offsets@.take(done as int) =~= offsets@);
        Var2Data { map }
    }

    /// The value at an offset.
    fn bytes_at(&self, offset: i32) -> (value: Option<&[u8]>)
        ensures
            slice_view(value) == (if self@.contains_key(offset) {
                Some(self@[offset])
            } else {
                None
            }),
    {
        match self.map.get(&offset) {
            Some(value) => Some(value.as_slice()),
            None => None,
        }
    }

    /// The value of a field of an item.
    pub fn get_bytes(&self, meta: &VarMeta, unique_id: i32, type_key: i32) -> (value: Option<&[u8]>)
        ensures
            slice_view(value) == field_value(meta@, self@, unique_id, type_key),
    {
        match meta.offset(unique_id, type_key) {
            Some(offset) => self.bytes_at(offset),
            None => None,
        }
    }

    /// The value of a field of an item, read as a text.
    pub fn get_unicode_string(&self, meta: &VarMeta, unique_id: i32, type_key: i32) -> (text: Option<
        String,
    >)
        ensures
            (match text {
                Some(t) => Some(t@),
                None => None,
            }) == field_text(meta@, self@, unique_id, type_key),
    {
        match self.get_bytes(meta, unique_id, type_key) {
            Some(bytes) => Some(get_unicode_string(bytes, 0)),
            None => None,
        }
    }
}

proof fn lemma_values_push(offsets: Seq<i32>, data: Seq<u8>, offset: i32)
    ensures
        var_values(offsets.push(offset), data) == (match value_at(data, offset) {
            Some(value) => var_values(offsets, data).insert(offset, value),
            None => var_values(offsets, data),
        }),
{
    let after = offsets.push(offset);
    assert forall|o: i32| after.contains(o) <==> offsets.contains(o) || o == offset by {
        if offsets.contains(o) {
            let i = choose|i: int| 0 <= i < offsets.len() && offsets[i] == o;
            assert(after[i] == o);
        }
        if o == offset {
            assert(after[offsets.len() as int] == o);
        }
    }
    match value_at(data, offset) {
        Some(value) => {
            assert(var_values(after, data) =~= var_values(offsets, data).insert(offset, value));
        },
        None => {
            assert(var_values(after, data) =~= var_values(offsets, data));
        },
    }
}

proof fn lemma_ids_push(records: Seq<VarRecord>, record: VarRecord)
    ensures
        ids_of(records.push(record)) == ids_of(records).insert(record.unique_id),
{
    let f = |r: VarRecord| r.unique_id;
    let before = records.map_values(f);
    let after = records.push(record).map_values(f);
    assert(after =~= before.push(record.unique_id));
    assert forall|id: i32| after.to_set().contains(id) <==> before.to_set().insert(
        record.unique_id,
    ).contains(id) by {
        if before.contains(id) {
            let i = choose|i: int| 0 <= i < before.len() && before[i] == id;
            assert(after[i] == id);
        }
        if id == record.unique_id {
            assert(after[before.len() as int] == id);
        }
    }
    assert(after.to_set() =~= before.to_set().insert(record.unique_id));
}

proof fn lemma_sorted_offsets(unsorted: Seq<i32>, sorted: Seq<i32>)
    requires
        sorted.to_multiset() == unsorted.to_multiset(),
        forall|i: int, j: int| 0 <= i <= j < sorted.len() ==> sorted[i] <= sorted[j],
    ensures
        sorted == unsorted.sort_by(ascending()),
{
    unsorted.lemma_sort_by_ensures(ascending());
    lemma_sorted_unique(sorted, unsorted.sort_by(ascending()), ascending());
}

/// The bytes of a record, with a zero in its unknown last word.
pub open spec fn var_record_bytes(record: VarRecord) -> Seq<u8> {
    i32_bytes(record.unique_id) + i32_bytes(record.offset) + u16_bytes(record.type_key as u16)
        + u16_bytes(0)
}

/// Whether `bytes` stand in `data` from byte `offset` on.
pub open spec fn stands_at(data: Seq<u8>, offset: int, bytes: Seq<u8>) -> bool {
    &&& 0 <= offset
    &&& offset + bytes.len() <= data.len()
    &&& data.subrange(offset, offset + bytes.len()) == bytes
}

/// Part of what stands somewhere stands there too.
proof fn lemma_part_stands(data: Seq<u8>, offset: int, bytes: Seq<u8>, from: int, part: Seq<u8>)
    requires
        stands_at(data, offset, bytes),
        stands_at(bytes, from, part),
    ensures
        stands_at(data, offset + from, part),
{
    assert(data.subrange(offset + from, offset + from + part.len()) =~= bytes.subrange(
        from,
        from + part.len(),
    ));
}

proof fn lemma_record_roundtrip(data: Seq<u8>, pos: int, record: VarRecord)
    requires
        0 <= record.type_key <= 0xFFFF,
        stands_at(data, pos, var_record_bytes(record)),
    ensures
        record_at(data, pos) == record,
{
    let bytes = var_record_bytes(record);
    assert(bytes.subrange(0, 4) =~= i32_bytes(record.unique_id));
    assert(bytes.subrange(4, 8) =~= i32_bytes(record.offset));
    assert(bytes.subrange(8, 10) =~= u16_bytes(record.type_key as u16));
    lemma_part_stands(data, pos, bytes, 0, i32_bytes(record.unique_id));
    lemma_part_stands(data, pos, bytes, 4, i32_bytes(record.offset));
    lemma_part_stands(data, pos, bytes, 8, u16_bytes(record.type_key as u16));
    lemma_i32_roundtrip(data, pos, record.unique_id);
    lemma_i32_roundtrip(data, pos + 4, record.offset);
    lemma_u16_roundtrip(data, pos + 8, record.type_key as u16);
}

/// A `VarMeta` stream that holds the magic word, the number of records and the records is parsed to
/// the index of just those records.
pub proof fn lemma_var_meta_roundtrip(data: Seq<u8>, records: Seq<VarRecord>)
    requires
        records.len() <= u32::MAX,
        data.len() >= 24 + 12 * records.len(),
        stands_at(data, 0, u32_bytes(MAGIC)) || stands_at(data, 0, u32_bytes(0)),
        stands_at(data, 8, u32_bytes(records.len() as u32)),
        forall|i: int|
            0 <= i < records.len() ==> 0 <= (#[trigger] records[i]).type_key <= 0xFFFF && stands_at(
                data,
                24 + 12 * i,
                var_record_bytes(records[i]),
            ),
    ensures
        var_meta_outcome(data) == Ok::<VarIndex, Seq<char>>(var_index(records)),
{
    if stands_at(data, 0, u32_bytes(MAGIC)) {
        lemma_u32_roundtrip(data, 0, MAGIC);
    } else {
        lemma_u32_roundtrip(data, 0, 0);
    }
    lemma_u32_roundtrip(data, 8, records.len() as u32);
    assert forall|i: int| 0 <= i < records.len() implies #[trigger] record_at(data, 24 + 12 * i)
        == records[i] by {
        lemma_record_roundtrip(data, 24 + 12 * i, records[i]);
    }
    assert(var_records(data) =~= records);
}

/// The last record for a unique id and a field key decides where that field is stored.
pub proof fn lemma_last_record_wins(records: Seq<VarRecord>, i: int)
    requires
        0 <= i < records.len(),
        forall|j: int|
            i < j < records.len() ==> (#[trigger] records[j]).unique_id != records[i].unique_id
                || records[j].type_key != records[i].type_key,
    ensures
        var_index(records).offset(records[i].unique_id, records[i].type_key) == Some(
            records[i].offset,
        ),
    decreases records.len(),
{
    if i < records.len() - 1 {
        let fewer = records.drop_last();
        assert(fewer[i] == records[i]);
        assert(records.last() == records[records.len() - 1]);
        lemma_last_record_wins(fewer, i);
    }
}

/// A field that no record mentions is stored nowhere.
pub proof fn lemma_no_record_no_offset(records: Seq<VarRecord>, unique_id: i32, type_key: i32)
    requires
        forall|i: int|
            0 <= i < records.len() ==> (#[trigger] records[i]).unique_id != unique_id
                || records[i].type_key != type_key,
    ensures
        var_index(records).offset(unique_id, type_key) is None,
    decreases records.len(),
{
    if records.len() > 0 {
        assert(records.last() == records[records.len() - 1]);
        lemma_no_record_no_offset(records.drop_last(), unique_id, type_key);
    }
}

/// The list of offsets is ascending and holds the offset of every record, as often as it occurs.
pub proof fn lemma_offsets_sorted(records: Seq<VarRecord>)
    ensures
        ({
            let offsets = var_index(records).offsets;
            &&& forall|i: int, j: int| 0 <= i <= j < offsets.len() ==> offsets[i] <= offsets[j]
            &&& offsets.to_multiset() == offsets_of(records).to_multiset()
            &&& forall|i: int|
                0 <= i < records.len() ==> offsets.contains((#[trigger] records[i]).offset)
        }),
{
    broadcast use vstd::seq_lib::group_to_multiset_ensures;

    let unsorted = offsets_of(records);
    unsorted.lemma_sort_by_ensures(ascending());
    let sorted = unsorted.sort_by(ascending());
    assert forall|i: int, j: int| 0 <= i <= j < sorted.len() implies sorted[i] <= sorted[j] by {
        if i < j {
            assert(ascending()(sorted[i], sorted[j]));
        }
    }
    assert forall|i: int| 0 <= i < records.len() implies sorted.contains(
        (#[trigger] records[i]).offset,
    ) by {
        assert(unsorted[i] == records[i].offset);
        assert(unsorted.to_multiset().count(records[i].offset) > 0);
    }
}

/// The offset of every field is that of the last record for it.
proof fn lemma_entry_has_record(records: Seq<VarRecord>, key: (i32, i32)) -> (i: int)
    requires
        entries_of(records).contains_key(key),
    ensures
        0 <= i < records.len(),
        (records[i].unique_id, records[i].type_key) == key,
        records[i].offset == entries_of(records)[key],
        forall|j: int|
            i < j < records.len() ==> ((#[trigger] records[j]).unique_id, records[j].type_key) != key,
    decreases records.len(),
{
    let last = records.last();
    if key == (last.unique_id, last.type_key) {
        records.len() - 1
    } else {
        let i = lemma_entry_has_record(records.drop_last(), key);
        assert forall|j: int| i < j < records.len() implies (
            (#[trigger] records[j]).unique_id,
            records[j].type_key,
        ) != key by {
            if j < records.len() - 1 {
                assert(records.drop_last()[j] == records[j]);
            }
        }
        i
    }
}

/// Every record is for a field that has an offset.
proof fn lemma_record_has_entry(records: Seq<VarRecord>, i: int)
    requires
        0 <= i < records.len(),
    ensures
        entries_of(records).contains_key((records[i].unique_id, records[i].type_key)),
    decreases records.len(),
{
    if i < records.len() - 1 {
        assert(records.drop_last()[i] == records[i]);
        lemma_record_has_entry(records.drop_last(), i);
    }
}

/// The parts of the index of any records agree: the offset of every field is among the offsets, these
/// are in ascending order, and the unique ids are those that have a field.
pub proof fn lemma_index_well_formed(records: Seq<VarRecord>)
    ensures
        var_index(records).well_formed(),
{
    let index = var_index(records);
    lemma_offsets_sorted(records);
    assert forall|key: (i32, i32)| #[trigger] index.entries.contains_key(
        key,
    ) implies index.offsets.contains(index.entries[key]) by {
        let i = lemma_entry_has_record(records, key);
        assert(index.offsets.contains(records[i].offset));
    }
    let ids = records.map_values(|r: VarRecord| r.unique_id);
    assert forall|id: i32| #[trigger] index.ids.contains(id) <==> exists|type_key: i32| #[trigger]
        index.entries.contains_key((id, type_key)) by {
        if index.ids.contains(id) {
            let i = choose|i: int| 0 <= i < ids.len() && ids[i] == id;
            lemma_record_has_entry(records, i);
            assert(index.entries.contains_key((id, records[i].type_key)));
        }
        if exists|type_key: i32| #[trigger] index.entries.contains_key((id, type_key)) {
            let type_key = choose|type_key: i32| #[trigger]
                index.entries.contains_key((id, type_key));
            let i = lemma_entry_has_record(records, (id, type_key));
            assert(ids[i] == id);
        }
    }
}

/// A field has a value if and only if its offset points at a whole value in the store, and then it has
/// that value.
pub proof fn lemma_field_value(index: VarIndex, data: Seq<u8>, unique_id: i32, type_key: i32)
    requires
        index.well_formed(),
    ensures
        field_value(index, var_values(index.offsets, data), unique_id, type_key) == (match index.offset(
            unique_id,
            type_key,
        ) {
            Some(offset) => value_at(data, offset),
            None => None,
        }),
{
    if index.entries.contains_key((unique_id, type_key)) {
        assert(index.offsets.contains(index.entries[(unique_id, type_key)]));
    }
}

/// A value that is written behind its length is read back.
pub proof fn lemma_value_roundtrip(data: Seq<u8>, offset: i32, value: Seq<u8>)
    requires
        0 <= offset,
        value.len() <= u32::MAX,
        stands_at(data, offset as int, u32_bytes(value.len() as u32) + value),
    ensures
        value_at(data, offset) == Some(value),
{
    let size = u32_bytes(value.len() as u32);
    let bytes = size + value;
    assert(bytes.subrange(0, 4) =~= size);
    assert(bytes.subrange(4, bytes.len() as int) =~= value);
    lemma_part_stands(data, offset as int, bytes, 0, size);
    lemma_part_stands(data, offset as int, bytes, 4, value);
    lemma_u32_roundtrip(data, offset as int, value.len() as u32);
}

/// A text that is stored for a field is read back for it: where the last record for a unique id and
/// a field key points at the text, written as UTF-16LE with a zero unit behind it and its length
/// before it, the field reads as that text.
pub proof fn lemma_field_roundtrip(
    records: Seq<VarRecord>,
    i: int,
    data: Seq<u8>,
    text: Seq<char>,
)
    requires
        0 <= i < records.len(),
        forall|j: int|
            i < j < records.len() ==> (#[trigger] records[j]).unique_id != records[i].unique_id
                || records[j].type_key != records[i].type_key,
        0 <= records[i].offset,
        forall|k: int| 0 <= k < text.len() ==> text[k] != '\0',
        2 * encode_utf16(text).len() + 2 <= u32::MAX,
        stands_at(
            data,
            records[i].offset as int,
            u32_bytes((2 * encode_utf16(text).len() + 2) as u32) + (unit_bytes(encode_utf16(text))
                + u16_bytes(0)),
        ),
    ensures
        field_text(
            var_index(records),
            var_values(var_index(records).offsets, data),
            records[i].unique_id,
            records[i].type_key,
        ) == Some(text),
{
    let value = unit_bytes(encode_utf16(text)) + u16_bytes(0);
    lemma_last_record_wins(records, i);
    lemma_offsets_sorted(records);
    lemma_value_roundtrip(data, records[i].offset, value);
    let nothing = Seq::<u8>::empty();
    assert(nothing + unit_bytes(encode_utf16(text)) + u16_bytes(0) =~= value);
    lemma_text_roundtrip(nothing, text, u16_bytes(0));
}

/// Which `VarMeta` streams are refused, and how: those without twelve bytes, and those that start with
/// another word than zero or 0xFADFADBA, which is told first.
pub proof fn lemma_var_meta_errors(data: Seq<u8>)
    ensures
        data.len() < 4 ==> var_meta_outcome(data) == Err::<VarIndex, Seq<char>>(
            "VarMeta: truncated header"@,
        ),
        data.len() >= 4 ==> {
            let magic = data[0] + 256 * (data[1] + 256 * (data[2] + 256 * data[3]));
            &&& magic != 0 && magic != 0xFADF_ADBA ==> var_meta_outcome(data) == Err::<
                VarIndex,
                Seq<char>,
            >("VarMeta: bad magic "@ + hex_word(magic as u32))
            &&& (magic == 0 || magic == 0xFADF_ADBA) && data.len() < 12 ==> var_meta_outcome(data)
                == Err::<VarIndex, Seq<char>>("VarMeta: truncated header"@)
            &&& (magic == 0 || magic == 0xFADF_ADBA) && data.len() >= 12 ==> var_meta_outcome(
                data,
            ) is Ok
        },
{
}

/// Whether a `VarMeta` stream has a record `i`: the word at byte 8 announces more than `i` of them,
/// and all twelve bytes of this one, behind the header of 24, are there.
pub open spec fn has_record(data: Seq<u8>, i: int) -> bool {
    0 <= i && data.len() >= 24 + 12 * i + 12 && i < data[8] + 256 * (data[9] + 256 * (data[10] + 256
        * data[11]))
}

/// Whether record `i` of a `VarMeta` stream is for a field: its first four bytes hold the unique id,
/// the two at its byte 8 the field key.
pub open spec fn is_record_for(data: Seq<u8>, i: int, unique_id: i32, type_key: i32) -> bool {
    &&& has_record(data, i)
    &&& i32_at(data, 24 + 12 * i) == Some(unique_id)
    &&& type_key == data[24 + 12 * i + 8] + 256 * data[24 + 12 * i + 9]
}

/// What an index says of a stream: a field has an offset if and only if a record is for it, namely
/// the one at byte 4 of the last such record; the unique ids are those of the records.
pub proof fn lemma_index_of_records(data: Seq<u8>, index: VarIndex)
    requires
        var_meta_outcome(data) == Ok::<VarIndex, Seq<char>>(index),
    ensures
        forall|unique_id: i32, type_key: i32|
            match #[trigger] index.offset(unique_id, type_key) {
                Some(offset) => exists|i: int|
                    {
                        &&& #[trigger] is_record_for(data, i, unique_id, type_key)
                        &&& i32_at(data, 24 + 12 * i + 4) == Some(offset)
                        &&& forall|j: int| i < j ==> !is_record_for(data, j, unique_id, type_key)
                    },
                None => forall|i: int| !is_record_for(data, i, unique_id, type_key),
            },
        forall|unique_id: i32| #[trigger]
            index.ids.contains(unique_id) <==> exists|i: int|
                #[trigger] has_record(data, i) && i32_at(data, 24 + 12 * i) == Some(unique_id),
{
    let records = var_records(data);
    assert forall|i: int| 0 <= i < records.len() <==> #[trigger] has_record(data, i) by {}
    assert forall|i: int, u: i32, k: i32| #[trigger] is_record_for(data, i, u, k) <==> 0 <= i
        < records.len() && records[i].unique_id == u && records[i].type_key == k by {
        assert(0 <= i < records.len() <==> has_record(data, i));
        if 0 <= i < records.len() {
            assert(records[i] == record_at(data, 24 + 12 * i));
        }
    }
    assert forall|unique_id: i32, type_key: i32|
        match #[trigger] index.offset(unique_id, type_key) {
            Some(offset) => exists|i: int|
                {
                    &&& #[trigger] is_record_for(data, i, unique_id, type_key)
                    &&& i32_at(data, 24 + 12 * i + 4) == Some(offset)
                    &&& forall|j: int| i < j ==> !is_record_for(data, j, unique_id, type_key)
                },
            None => forall|i: int| !is_record_for(data, i, unique_id, type_key),
        } by {
        match index.offset(unique_id, type_key) {
            Some(offset) => {
                let i = lemma_entry_has_record(records, (unique_id, type_key));
                assert(is_record_for(data, i, unique_id, type_key));
                assert(records[i] == record_at(data, 24 + 12 * i));
                assert(i32_at(data, 24 + 12 * i + 4) == Some(offset));
                assert forall|j: int| i < j implies !is_record_for(data, j, unique_id, type_key) by {
                    if j < records.len() {
                        assert((records[j].unique_id, records[j].type_key) != (unique_id, type_key));
                    }
                }
            },
            None => {
                assert forall|i: int| !is_record_for(data, i, unique_id, type_key) by {
                    if is_record_for(data, i, unique_id, type_key) {
                        lemma_record_has_entry(records, i);
                    }
                }
            },
        }
    }
    let ids = records.map_values(|r: VarRecord| r.unique_id);
    assert forall|unique_id: i32| #[trigger] index.ids.contains(unique_id) <==> exists|i: int|
        #[trigger] has_record(data, i) && i32_at(data, 24 + 12 * i) == Some(unique_id) by {
        if index.ids.contains(unique_id) {
            let i = choose|i: int| 0 <= i < ids.len() && ids[i] == unique_id;
            assert(has_record(data, i));
            assert(records[i] == record_at(data, 24 + 12 * i));
        }
        if exists|i: int|
            #[trigger] has_record(data, i) && i32_at(data, 24 + 12 * i) == Some(unique_id) {
            let i = choose|i: int|
                #[trigger] has_record(data, i) && i32_at(data, 24 + 12 * i) == Some(unique_id);
            assert(records[i] == record_at(data, 24 + 12 * i));
            assert(ids[i] == unique_id);
        }
    }
}

/// The offsets of an index are those at byte 4 of the records, one for each record, in ascending
/// order.
pub proof fn lemma_offsets_of_records(data: Seq<u8>, index: VarIndex) -> (count: nat)
    requires
        var_meta_outcome(data) == Ok::<VarIndex, Seq<char>>(index),
    ensures
        forall|i: int| #[trigger] has_record(data, i) <==> 0 <= i < count,
        index.offsets.len() == count,
        index.offsets.to_multiset() == Seq::new(
            count,
            |i: int| i32_at(data, 24 + 12 * i + 4)->0,
        ).to_multiset(),
        forall|i: int, j: int|
            0 <= i <= j < index.offsets.len() ==> index.offsets[i] <= index.offsets[j],
{
    broadcast use vstd::seq_lib::group_to_multiset_ensures;

    let records = var_records(data);
    let count = records.len();
    lemma_offsets_sorted(records);
    let listed = Seq::new(count, |i: int| i32_at(data, 24 + 12 * i + 4)->0);
    assert(offsets_of(records) =~= listed);
    assert(index.offsets.len() == index.offsets.to_multiset().len());
    assert(listed.len() == listed.to_multiset().len());
    count
}

/// A value is there for an offset of the index that is not negative, where its four bytes of length
/// are in the store and as many bytes as they say follow them. These are the value.
pub proof fn lemma_values_of_store(offsets: Seq<i32>, data: Seq<u8>, offset: i32)
    ensures
        ({
            let values = var_values(offsets, data);
            let size = data[offset as int] + 256 * (data[offset + 1] + 256 * (data[offset + 2] + 256
                * data[offset + 3]));
            &&& values.contains_key(offset) <==> offsets.contains(offset) && 0 <= offset && offset + 4
                <= data.len() && offset + 4 + size <= data.len()
            &&& values.contains_key(offset) ==> {
                &&& values[offset].len() == size
                &&& forall|k: int|
                    0 <= k < size ==> #[trigger] values[offset][k] == data[offset + 4 + k]
            }
        }),
{
}

/// The text of a field is the one that its value starts with.
pub proof fn lemma_field_text(
    index: VarIndex,
    values: Map<i32, Seq<u8>>,
    unique_id: i32,
    type_key: i32,
)
    ensures
        index.offset(unique_id, type_key) is None ==> field_text(index, values, unique_id, type_key) is None
            && field_value(index, values, unique_id, type_key) is None,
        index.offset(unique_id, type_key) matches Some(offset) ==> {
            &&& !values.contains_key(offset) ==> field_text(index, values, unique_id, type_key) is None
                && field_value(index, values, unique_id, type_key) is None
            &&& values.contains_key(offset) ==> field_text(index, values, unique_id, type_key) == Some(
                text_at(values[offset], 0),
            ) && field_value(index, values, unique_id, type_key) == Some(values[offset])
        },
{
}

/// What is said of a slice is whether it is there, and its bytes.
pub proof fn lemma_slice_view(slice: &[u8])
    ensures
        slice_view(Some(slice)) == Some(slice@),
        slice_view(None) is None,
{
}

} // verus!
