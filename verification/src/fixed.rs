//! Fixed-length data: `FixedMeta` (one record per item, with the item's offset) and `FixedData` (the
//! store).
use crate::text::{hex_word, with_hex};
use crate::util::{get_u32, lemma_u32_roundtrip, u32_at, u32_bytes};
use crate::var::{slice_view, stands_at};
use vstd::prelude::*;

verus! {

/// The first word of a `FixedMeta` stream.
pub const FIXED_META_MAGIC: u32 = 0xFADF_ADBA;

/// The size of the header of a `FixedMeta` stream.
pub const HEADER_SIZE: usize = 16;

/// The number of bytes behind the header.
pub open spec fn available_bytes(data: Seq<u8>) -> int {
    if data.len() < 16 {
        0
    } else {
        data.len() - 16
    }
}

/// The number of whole records of a `FixedMeta` stream. It follows from the size of the stream
/// alone: the count in the header is not always right.
pub open spec fn fixed_record_count(data: Seq<u8>, item_size: int) -> int {
    available_bytes(data) / (if item_size < 1 {
        1
    } else {
        item_size
    })
}

/// The records of a `FixedMeta` stream.
pub open spec fn fixed_records(data: Seq<u8>, item_size: int) -> Seq<Seq<u8>> {
    Seq::new(
        fixed_record_count(data, item_size) as nat,
        |i: int| data.subrange(16 + i * item_size, 16 + i * item_size + item_size),
    )
}

/// What parsing a `FixedMeta` stream gives: its records, or an error message.
pub open spec fn fixed_meta_outcome(data: Seq<u8>, item_size: int) -> Result<
    Seq<Seq<u8>>,
    Seq<char>,
> {
    match u32_at(data, 0) {
        Some(magic) => if magic != FIXED_META_MAGIC {
            Err("FixedMeta: bad magic "@ + hex_word(magic))
        } else {
            Ok(fixed_records(data, item_size))
        },
        None => Err("FixedMeta: truncated"@),
    }
}

/// The records of a `FixedMeta` stream.
pub struct FixedMeta {
    records: Vec<Vec<u8>>,
}

impl View for FixedMeta {
    type V = Seq<Seq<u8>>;

    closed spec fn view(&self) -> Seq<Seq<u8>> {
        self.records@.map_values(|record: Vec<u8>| record@)
    }
}

/// Record `i` of `count` lies behind the header and within the stream.
proof fn lemma_record_fits(data: Seq<u8>, item_size: int, i: int)
    requires
        0 <= item_size,
        0 <= i < fixed_record_count(data, item_size),
    ensures
        0 <= i * item_size,
        16 + i * item_size + item_size <= data.len(),
        (i + 1) * item_size == i * item_size + item_size,
{
    let available = available_bytes(data);
    let count = fixed_record_count(data, item_size);
    assert((i + 1) * item_size == i * item_size + item_size) by (nonlinear_arith);
    assert(0 <= i * item_size) by (nonlinear_arith)
        requires
            0 <= i,
            0 <= item_size,
    ;
    if item_size > 0 {
        vstd::arithmetic::div_mod::lemma_fundamental_div_mod(available, item_size);
        vstd::arithmetic::div_mod::lemma_mod_bound(available, item_size);
        assert((i + 1) * item_size <= count * item_size) by (nonlinear_arith)
            requires
                i + 1 <= count,
                0 <= item_size,
        ;
        assert(count * item_size == item_size * count) by (nonlinear_arith);
    }
}

/// The count of records that the header announces, zero if there is none.
pub open spec fn announced_count(data: Seq<u8>) -> int {
    match u32_at(data, 8) {
        Some(count) => count as int,
        None => 0,
    }
}

/// The signed machine integer that is congruent to `x` modulo the number of machine words.
pub open spec fn machine_int(x: int) -> int {
    let modulus = usize::MAX + 1;
    let word = x % modulus;
    if word > isize::MAX {
        word - modulus
    } else {
        word
    }
}

/// Whether the machine can count the bytes that the announced number of records of a size would take.
pub open spec fn is_countable(data: Seq<u8>, size: int) -> bool {
    announced_count(data) * size <= isize::MAX
}

/// How many more bytes the announced number of records of a size would take than there are, in
/// machine arithmetic: exactly, where the machine can count them.
pub open spec fn distance(data: Seq<u8>, size: int) -> int {
    let exact = announced_count(data) * size - available_bytes(data);
    if is_countable(data, size) {
        exact
    } else {
        machine_int(exact)
    }
}

/// Whether the bytes behind the header are a whole number of records of a size.
pub open spec fn divides(data: Seq<u8>, size: int) -> bool {
    size > 0 && available_bytes(data) % size == 0
}

/// Whether the bytes behind the header are the expected number of records of a size.
pub open spec fn fits_exactly(data: Seq<u8>, size: int, expected_count: int) -> bool {
    divides(data, size) && available_bytes(data) / size == expected_count
}

/// Whether the announced number of records of a size would fit into the stream.
pub open spec fn fits_announced(data: Seq<u8>, size: int) -> bool {
    &&& divides(data, size)
    &&& distance(data, size) <= 0
    &&& is_countable(data, size) || distance(data, size) != isize::MIN
}

/// Whether candidate `i` is the size to take: the first that gives the expected number of records;
/// if none does, of those by which the announced number of records fits, the one that fits most
/// closely, the first of several; if none does, the first of all.
pub open spec fn picks(data: Seq<u8>, candidates: Seq<usize>, expected_count: int, i: int) -> bool {
    &&& 0 <= i < candidates.len()
    &&& if exists|j: int|
        0 <= j < candidates.len() && fits_exactly(
            data,
            #[trigger] candidates[j] as int,
            expected_count,
        ) {
        &&& fits_exactly(data, candidates[i] as int, expected_count)
        &&& forall|j: int|
            0 <= j < i ==> !fits_exactly(data, #[trigger] candidates[j] as int, expected_count)
    } else if exists|j: int|
        0 <= j < candidates.len() && fits_announced(data, #[trigger] candidates[j] as int) {
        &&& fits_announced(data, candidates[i] as int)
        &&& forall|j: int|
            0 <= j < candidates.len() && fits_announced(data, #[trigger] candidates[j] as int)
                ==> distance(data, candidates[j] as int) < distance(data, candidates[i] as int) || (
            distance(data, candidates[j] as int) == distance(data, candidates[i] as int) && i <= j)
    } else {
        i == 0
    }
}

/// The size that is taken from among the candidates.
pub open spec fn chosen_size(data: Seq<u8>, candidates: Seq<usize>, expected_count: int) -> usize {
    candidates[choose|i: int| picks(data, candidates, expected_count, i)]
}

/// At most one candidate is the size to take.
proof fn lemma_pick_unique(data: Seq<u8>, candidates: Seq<usize>, expected_count: int, i: int)
    requires
        picks(data, candidates, expected_count, i),
    ensures
        chosen_size(data, candidates, expected_count) == candidates[i],
{
    let k = choose|k: int| picks(data, candidates, expected_count, k);
    assert(candidates[k] == candidates[i]);
}

/// The state of the search for the candidate that fits most closely.
spec fn best_of(data: Seq<u8>, seen: Seq<usize>, chosen: int, best: int) -> bool {
    if exists|j: int| 0 <= j < seen.len() && fits_announced(data, #[trigger] seen[j] as int) {
        &&& 0 <= chosen < seen.len()
        &&& fits_announced(data, seen[chosen] as int)
        &&& best == distance(data, seen[chosen] as int)
        &&& forall|j: int|
            0 <= j < seen.len() && fits_announced(data, #[trigger] seen[j] as int) ==> distance(
                data,
                seen[j] as int,
            ) < best || (distance(data, seen[j] as int) == best && chosen <= j)
    } else {
        chosen == 0 && best == i128::MIN
    }
}

/// How one more candidate changes the candidate that fits most closely.
proof fn lemma_best_step(data: Seq<u8>, seen: Seq<usize>, size: usize, chosen: int, best: int)
    requires
        best_of(data, seen, chosen, best),
    ensures
        ({
            let is_first = forall|j: int|
                0 <= j < seen.len() ==> !fits_announced(data, #[trigger] seen[j] as int);
            if fits_announced(data, size as int) && (is_first || distance(data, size as int) > best) {
                best_of(data, seen.push(size), seen.len() as int, distance(data, size as int))
            } else {
                best_of(data, seen.push(size), chosen, best)
            }
        }),
{
    let more = seen.push(size);
    assert forall|j: int| 0 <= j < seen.len() implies more[j] == seen[j] by {}
    assert(more[seen.len() as int] == size);
    if exists|j: int| 0 <= j < seen.len() && fits_announced(data, #[trigger] seen[j] as int) {
        let j = choose|j: int| 0 <= j < seen.len() && fits_announced(data, #[trigger] seen[j] as int);
        assert(fits_announced(data, more[j] as int));
    }
    if fits_announced(data, size as int) {
        assert(fits_announced(data, more[seen.len() as int] as int));
    }
}

/// Computes `distance`, where the announced number of records would fit into the stream by it.
fn announced_distance(data: &[u8], header_count: u32, size: usize, available: usize) -> (result:
    Option<i128>)
    requires
        header_count == announced_count(data@),
        available == available_bytes(data@),
        divides(data@, size as int),
    ensures
        result == (if fits_announced(data@, size as int) {
            Some(distance(data@, size as int) as i128)
        } else {
            None
        }),
        result matches Some(d) ==> d == distance(data@, size as int) && d > i128::MIN,
{
    assert(0 <= header_count * size <= 0xFFFF_FFFF * 0xFFFF_FFFF_FFFF_FFFF) by (nonlinear_arith)
        requires
            0 <= header_count <= 0xFFFF_FFFF,
            0 <= size <= 0xFFFF_FFFF_FFFF_FFFF,
    ;
    let announced: i128 = header_count as i128 * size as i128;
    let exact: i128 = announced - available as i128;
    if announced <= isize::MAX as i128 {
        return if exact <= 0 {
            Some(exact)
        } else {
            None
        };
    }
    let modulus: i128 = usize::MAX as i128 + 1;
    let remainder: i128 = exact % modulus;
    let word: i128 = if remainder < 0 {
        remainder + modulus
    } else {
        remainder
    };
    let wrapped: i128 = if word > isize::MAX as i128 {
        word - modulus
    } else {
        word
    };
    if wrapped <= 0 && wrapped != isize::MIN as i128 {
        Some(wrapped)
    } else {
        None
    }
}

impl FixedMeta {
    /// Parses a `FixedMeta` stream whose records have a known size.
    pub fn parse(data: &[u8], item_size: usize) -> (meta: Result<Self, String>)
        ensures
            match (meta, fixed_meta_outcome(data@, item_size as int)) {
                (Ok(m), Ok(records)) => m@ == records,
                (Err(message), Err(text)) => message@ == text,
                _ => false,
            },
    {
        let magic: u32 = match get_u32(data, 0) {
            Some(magic) => magic,
            None => return Err("FixedMeta: truncated".to_owned()),
        };
        if magic != FIXED_META_MAGIC {
            return Err(with_hex("FixedMeta: bad magic ", magic));
        }
        let available: usize = if data.len() < HEADER_SIZE {
            0
        } else {
            data.len() - HEADER_SIZE
        };
        let divisor: usize = if item_size < 1 {
            1
        } else {
            item_size
        };
        let count: usize = available / divisor;
        let mut records: Vec<Vec<u8>> = Vec::new();
        let mut start: usize = HEADER_SIZE;
        let mut i: usize = 0;
        let ghost view = |record: Vec<u8>| record@;
        while i < count
            invariant
                view == (|record: Vec<u8>| record@),
                data@.len() <= usize::MAX,
                count == fixed_record_count(data@, item_size as int),
                i <= count,
                start == 16 + i * item_size,
                records@.map_values(view) == fixed_records(data@, item_size as int).take(i as int),
            decreases count - i,
        {
            proof {
                lemma_record_fits(data@, item_size as int, i as int);
            }
            let ghost before = records@;
            let end: usize = start + item_size;
            records.push(vstd::slice::slice_to_vec(vstd::slice::slice_subrange(data, start, end)));
            assert(records@.map_values(view) =~= before.map_values(view).push(
                data@.subrange(start as int, end as int),
            ));
            assert(fixed_records(data@, item_size as int).take(i + 1) =~= fixed_records(
                data@,
                item_size as int,
            ).take(i as int).push(data@.subrange(start as int, end as int)));
            start = end;
            i += 1;
        }
        assert(fixed_records(data@, item_size as int).take(count as int) =~= fixed_records(
            data@,
            item_size as int,
        ));
        Ok(FixedMeta { records })
    }

    /// Parses a `FixedMeta` stream whose records have one of several sizes, choosing the size that
    /// fits best; see `picks`.
    pub fn parse_with_candidates(data: &[u8], candidates: &[usize], expected_count: usize) -> (meta:
        Result<Self, String>)
        requires
            candidates@.len() > 0,
        ensures
            match (
                meta,
                fixed_meta_outcome(
                    data@,
                    chosen_size(data@, candidates@, expected_count as int) as int,
                ),
            ) {
                (Ok(m), Ok(records)) => m@ == records,
                (Err(message), Err(text)) => message@ == text,
                _ => false,
            },
    {
        let available: usize = if data.len() < HEADER_SIZE {
            0
        } else {
            data.len() - HEADER_SIZE
        };
        let header_count: u32 = match get_u32(data, 8) {
            Some(count) => count,
            None => 0,
        };
        let mut chosen: usize = 0;
        let mut best_distance: i128 = i128::MIN;
        let mut i: usize = 0;
        while i < candidates.len()
            invariant
                available == available_bytes(data@),
                header_count == announced_count(data@),
                candidates@.len() > 0,
                i <= candidates.len(),
                chosen < candidates.len(),
                forall|j: int|
                    0 <= j < i ==> !fits_exactly(
                        data@,
                        #[trigger] candidates@[j] as int,
                        expected_count as int,
                    ),
                best_of(data@, candidates@.take(i as int), chosen as int, best_distance as int),
            decreases candidates.len() - i,
        {
            let size: usize = candidates[i];
            proof {
                let seen = candidates@.take(i as int);
                lemma_best_step(data@, seen, size, chosen as int, best_distance as int);
                assert(candidates@.take(i + 1) =~= seen.push(size));
            }
            if size != 0 && available % size == 0 {
                if available / size == expected_count {
                    proof {
                        assert(picks(data@, candidates@, expected_count as int, i as int));
                        lemma_pick_unique(data@, candidates@, expected_count as int, i as int);
                    }
                    return Self::parse(data, size);
                }
                if let Some(distance) = announced_distance(data, header_count, size, available) {
                    if distance > best_distance {
                        chosen = i;
                        best_distance = distance;
                    }
                }
            }
            i += 1;
        }
        proof {
            assert(candidates@.take(i as int) =~= candidates@);
            assert(picks(data@, candidates@, expected_count as int, chosen as int));
            lemma_pick_unique(data@, candidates@, expected_count as int, chosen as int);
        }
        Self::parse(data, candidates[chosen])
    }

    /// The number of records.
    pub fn item_count(&self) -> (count: usize)
        ensures
            count == self@.len(),
    {
        self.records.len()
    }

    /// The offset of the data item that a record belongs to, at byte 4 of the record.
    pub fn item_offset(&self, index: usize) -> (offset: Option<usize>)
        ensures
            offset == (if index < self@.len() {
                match u32_at(self@[index as int], 4) {
                    Some(word) => Some(word as usize),
                    None => None,
                }
            } else {
                None
            }),
    {
        if index < self.records.len() {
            match get_u32(self.records[index].as_slice(), 4) {
                Some(word) => Some(word as usize),
                None => None,
            }
        } else {
            None
        }
    }
}

/// The data item that record `i` belongs to: the bytes from its offset up to the offset of the next
/// record, or up to the end of the store if this is the last record, or if the next one has no
/// offset or a smaller one. There is none where the record has no offset or one past the store, nor
/// where both ends are the same.
pub open spec fn fixed_item(records: Seq<Seq<u8>>, data: Seq<u8>, i: int) -> Option<Seq<u8>> {
    match u32_at(records[i], 4) {
        Some(offset) => {
            let end = if i + 1 == records.len() {
                data.len() as int
            } else {
                match u32_at(records[i + 1], 4) {
                    Some(next) => if next >= offset {
                        next as int
                    } else {
                        data.len() as int
                    },
                    None => data.len() as int,
                }
            };
            if offset > data.len() || end == offset {
                None
            } else if end < data.len() {
                Some(data.subrange(offset as int, end))
            } else {
                Some(data.skip(offset as int))
            }
        },
        None => None,
    }
}

/// The data items of a store, one per record.
pub open spec fn fixed_items(records: Seq<Seq<u8>>, data: Seq<u8>) -> Seq<Option<Seq<u8>>> {
    Seq::new(records.len(), |i: int| fixed_item(records, data, i))
}

/// The bytes of an optional item.
pub open spec fn item_view(item: Option<Vec<u8>>) -> Option<Seq<u8>> {
    match item {
        Some(bytes) => Some(bytes@),
        None => None,
    }
}

/// The data items of a `FixedData` stream.
pub struct FixedData {
    items: Vec<Option<Vec<u8>>>,
}

impl View for FixedData {
    type V = Seq<Option<Seq<u8>>>;

    closed spec fn view(&self) -> Seq<Option<Seq<u8>>> {
        self.items@.map_values(|item: Option<Vec<u8>>| item_view(item))
    }
}

impl FixedData {
    /// Cuts a `FixedData` stream into the items that `meta` describes.
    pub fn parse(meta: &FixedMeta, data: &[u8]) -> (items: Self)
        ensures
            items@ == fixed_items(meta@, data@),
    {
        let count: usize = meta.item_count();
        let mut items: Vec<Option<Vec<u8>>> = Vec::new();
        let mut i: usize = 0;
        let ghost view = |item: Option<Vec<u8>>| item_view(item);
        while i < count
            invariant
                view == (|item: Option<Vec<u8>>| item_view(item)),
                count == meta@.len(),
                i <= count,
                items@.map_values(view) == fixed_items(meta@, data@).take(i as int),
            decreases count - i,
        {
            let item: Option<Vec<u8>> = match meta.item_offset(i) {
                Some(offset) => if offset > data.len() {
                    None
                } else {
                    let end: usize = if i + 1 == count {
                        data.len()
                    } else {
                        match meta.item_offset(i + 1) {
                            Some(next) => if next >= offset {
                                next
                            } else {
                                data.len()
                            },
                            None => data.len(),
                        }
                    };
                    if end == offset {
                        None
                    } else {
                        let stop: usize = if end < data.len() {
                            end
                        } else {
                            data.len()
                        };
                        Some(
                            vstd::slice::slice_to_vec(vstd::slice::slice_subrange(data, offset, stop)),
                        )
                    }
                },
                None => None,
            };
            let ghost before = items@;
            assert(item_view(item) == fixed_item(meta@, data@, i as int));
            items.push(item);
            assert(items@.map_values(view) =~= before.map_values(view).push(item_view(item)));
            assert(fixed_items(meta@, data@).take(i + 1) =~= fixed_items(meta@, data@).take(
                i as int,
            ).push(fixed_item(meta@, data@, i as int)));
            i += 1;
        }
        assert(fixed_items(meta@, data@).take(count as int) =~= fixed_items(meta@, data@));
        FixedData { items }
    }

    /// The number of items, those without data included.
    pub fn item_count(&self) -> (count: usize)
        ensures
            count == self@.len(),
    {
        self.items.len()
    }

    /// The bytes of an item.
    pub fn item(&self, index: usize) -> (item: Option<&[u8]>)
        ensures
            slice_view(item) == (if index < self@.len() {
                self@[index as int]
            } else {
                None
            }),
    {
        if index < self.items.len() {
            match &self.items[index] {
                Some(bytes) => Some(bytes.as_slice()),
                None => None,
            }
        } else {
            None
        }
    }
}

/// A `FixedMeta` stream that holds the magic word, anything in the rest of its header, and records
/// of one size is parsed to just those records.
pub proof fn lemma_fixed_meta_roundtrip(data: Seq<u8>, item_size: int, records: Seq<Seq<u8>>)
    requires
        item_size > 0,
        data.len() == 16 + records.len() * item_size,
        stands_at(data, 0, u32_bytes(FIXED_META_MAGIC)),
        forall|i: int|
            0 <= i < records.len() ==> (#[trigger] records[i]).len() == item_size && stands_at(
                data,
                16 + i * item_size,
                records[i],
            ),
    ensures
        fixed_meta_outcome(data, item_size) == Ok::<Seq<Seq<u8>>, Seq<char>>(records),
{
    assert(0 <= records.len() * item_size) by (nonlinear_arith)
        requires
            item_size > 0,
    ;
    lemma_u32_roundtrip(data, 0, FIXED_META_MAGIC);
    vstd::arithmetic::div_mod::lemma_div_by_multiple(records.len() as int, item_size);
    assert(fixed_records(data, item_size) =~= records);
}

/// The first candidate that gives the expected number of records is taken, wherever it stands among
/// the candidates and whatever the header announces.
pub proof fn lemma_exact_candidate_taken(
    data: Seq<u8>,
    candidates: Seq<usize>,
    expected_count: int,
    i: int,
)
    requires
        0 <= i < candidates.len(),
        fits_exactly(data, candidates[i] as int, expected_count),
        forall|j: int|
            0 <= j < i ==> !fits_exactly(data, #[trigger] candidates[j] as int, expected_count),
    ensures
        chosen_size(data, candidates, expected_count) == candidates[i],
{
    assert(picks(data, candidates, expected_count, i));
    lemma_pick_unique(data, candidates, expected_count, i);
}

/// The size taken is always one of the candidates.
pub proof fn lemma_chosen_is_candidate(data: Seq<u8>, candidates: Seq<usize>, expected_count: int)
    requires
        candidates.len() > 0,
    ensures
        candidates.contains(chosen_size(data, candidates, expected_count)),
{
    lemma_some_pick(data, candidates, expected_count);
    let i = choose|i: int| picks(data, candidates, expected_count, i);
    assert(candidates[i] == chosen_size(data, candidates, expected_count));
}

proof fn lemma_some_pick(data: Seq<u8>, candidates: Seq<usize>, expected_count: int)
    requires
        candidates.len() > 0,
    ensures
        exists|i: int| picks(data, candidates, expected_count, i),
{
    if exists|j: int|
        0 <= j < candidates.len() && fits_exactly(
            data,
            #[trigger] candidates[j] as int,
            expected_count,
        ) {
        let some = choose|j: int|
            0 <= j < candidates.len() && fits_exactly(
                data,
                #[trigger] candidates[j] as int,
                expected_count,
            );
        let first = lemma_first_exact(data, candidates, expected_count, some);
        assert(picks(data, candidates, expected_count, first));
    } else {
        let (chosen, best) = lemma_some_best(data, candidates);
        if exists|j: int|
            0 <= j < candidates.len() && fits_announced(data, #[trigger] candidates[j] as int) {
        } else {
            assert(chosen == 0);
        }
        assert(picks(data, candidates, expected_count, chosen));
    }
}

proof fn lemma_first_exact(
    data: Seq<u8>,
    candidates: Seq<usize>,
    expected_count: int,
    some: int,
) -> (first: int)
    requires
        0 <= some < candidates.len(),
        fits_exactly(data, candidates[some] as int, expected_count),
    ensures
        0 <= first < candidates.len(),
        fits_exactly(data, candidates[first] as int, expected_count),
        forall|j: int|
            0 <= j < first ==> !fits_exactly(data, #[trigger] candidates[j] as int, expected_count),
    decreases some,
{
    if exists|j: int|
        0 <= j < some && fits_exactly(data, #[trigger] candidates[j] as int, expected_count) {
        let earlier = choose|j: int|
            0 <= j < some && fits_exactly(data, #[trigger] candidates[j] as int, expected_count);
        lemma_first_exact(data, candidates, expected_count, earlier)
    } else {
        some
    }
}

proof fn lemma_some_best(data: Seq<u8>, seen: Seq<usize>) -> (found: (int, int))
    ensures
        best_of(data, seen, found.0, found.1),
    decreases seen.len(),
{
    if seen.len() == 0 {
        (0, i128::MIN as int)
    } else {
        let fewer = seen.drop_last();
        let (chosen, best) = lemma_some_best(data, fewer);
        let size = seen.last();
        lemma_best_step(data, fewer, size, chosen, best);
        assert(fewer.push(size) =~= seen);
        let is_first = forall|j: int|
            0 <= j < fewer.len() ==> !fits_announced(data, #[trigger] fewer[j] as int);
        if fits_announced(data, size as int) && (is_first || distance(data, size as int) > best) {
            (fewer.len() as int, distance(data, size as int))
        } else {
            (chosen, best)
        }
    }
}

/// Items that are written one after the other are read back: where the items fill the store, and
/// each record holds the offset of its item, cutting the store gives just those items.
pub proof fn lemma_fixed_items_roundtrip(
    records: Seq<Seq<u8>>,
    data: Seq<u8>,
    starts: Seq<u32>,
    items: Seq<Seq<u8>>,
)
    requires
        records.len() == items.len(),
        starts.len() == items.len(),
        forall|i: int|
            0 <= i < items.len() ==> {
                &&& (#[trigger] items[i]).len() > 0
                &&& stands_at(data, starts[i] as int, items[i])
                &&& stands_at(records[i], 4, u32_bytes(starts[i]))
                &&& starts[i] + items[i].len() == (if i + 1 == items.len() {
                    data.len() as int
                } else {
                    starts[i + 1] as int
                })
            },
    ensures
        fixed_items(records, data) == items.map_values(|item: Seq<u8>| Some(item)),
{
    assert forall|i: int| 0 <= i < items.len() implies fixed_item(records, data, i) == Some(
        items[i],
    ) by {
        assert(items[i].len() > 0);
        lemma_u32_roundtrip(records[i], 4, starts[i]);
        if i + 1 < items.len() {
            assert(items[i + 1].len() > 0);
            lemma_u32_roundtrip(records[i + 1], 4, starts[i + 1]);
        }
        assert(data.skip(starts[i] as int) =~= data.subrange(starts[i] as int, data.len() as int));
    }
    assert(fixed_items(records, data) =~= items.map_values(|item: Seq<u8>| Some(item)));
}

/// Every item is a part of the store.
pub proof fn lemma_item_in_store(records: Seq<Seq<u8>>, data: Seq<u8>, i: int)
    requires
        0 <= i < records.len(),
    ensures
        fixed_items(records, data)[i] matches Some(item) ==> stands_at(
            data,
            u32_at(records[i], 4)->0 as int,
            item,
        ),
{
    if let Some(item) = fixed_item(records, data, i) {
        let offset = u32_at(records[i], 4)->0 as int;
        assert(data.subrange(offset, offset + item.len()) =~= item);
    }
}

/// Items one after the other; those without data add nothing.
pub open spec fn joined(items: Seq<Option<Seq<u8>>>) -> Seq<u8>
    decreases items.len(),
{
    if items.len() == 0 {
        Seq::empty()
    } else {
        (match items[0] {
            Some(item) => item,
            None => Seq::empty(),
        }) + joined(items.skip(1))
    }
}

/// Items fill the store: where the offsets ascend and lie inside the store, the items one after the
/// other are the store from the first offset on.
pub proof fn lemma_items_fill_store(records: Seq<Seq<u8>>, data: Seq<u8>, starts: Seq<u32>)
    requires
        records.len() > 0,
        starts.len() == records.len(),
        forall|i: int| 0 <= i < records.len() ==> u32_at(#[trigger] records[i], 4) == Some(starts[i]),
        forall|i: int, j: int| 0 <= i <= j < starts.len() ==> starts[i] <= starts[j],
        starts.last() <= data.len(),
    ensures
        joined(fixed_items(records, data)) == data.skip(starts[0] as int),
{
    lemma_items_fill_from(records, data, starts, 0);
    assert(fixed_items(records, data).skip(0) =~= fixed_items(records, data));
}

proof fn lemma_items_fill_from(records: Seq<Seq<u8>>, data: Seq<u8>, starts: Seq<u32>, from: int)
    requires
        0 <= from < records.len(),
        starts.len() == records.len(),
        forall|i: int| 0 <= i < records.len() ==> u32_at(#[trigger] records[i], 4) == Some(starts[i]),
        forall|i: int, j: int| 0 <= i <= j < starts.len() ==> starts[i] <= starts[j],
        starts.last() <= data.len(),
    ensures
        joined(fixed_items(records, data).skip(from)) == data.skip(starts[from] as int),
    decreases records.len() - from,
{
    let items = fixed_items(records, data).skip(from);
    let start = starts[from] as int;
    assert(starts[from] <= starts.last());
    assert(u32_at(records[from], 4) == Some(starts[from]));
    assert(items[0] == fixed_item(records, data, from));
    assert(items.skip(1) =~= fixed_items(records, data).skip(from + 1));
    if from + 1 < records.len() {
        let end = starts[from + 1] as int;
        lemma_items_fill_from(records, data, starts, from + 1);
        assert(u32_at(records[from + 1], 4) == Some(starts[from + 1]));
        assert(starts[from] <= starts[from + 1] <= starts.last());
        assert(data.subrange(start, end) + data.skip(end) =~= data.skip(start));
        if end == start {
            assert(Seq::<u8>::empty() + data.skip(end) =~= data.skip(start));
        } else if end == data.len() {
            assert(data.skip(start) + data.skip(end) =~= data.skip(start));
        }
    } else {
        assert(joined(items.skip(1)) =~= Seq::<u8>::empty());
        if start == data.len() {
            assert(data.skip(start) =~= Seq::<u8>::empty());
        }
        assert(data.skip(start) + Seq::<u8>::empty() =~= data.skip(start));
    }
}

/// Whether records of a size fill the bytes behind the header, and the announced number of them takes
/// no more than those bytes.
pub open spec fn holds_announced(data: Seq<u8>, size: int) -> bool {
    divides(data, size) && announced_count(data) * size <= available_bytes(data)
}

/// Whether candidate `i` is the first by which the announced number of records takes the most bytes,
/// of those by which it takes no more than there are.
pub open spec fn picks_announced(data: Seq<u8>, candidates: Seq<usize>, i: int) -> bool {
    &&& 0 <= i < candidates.len()
    &&& holds_announced(data, candidates[i] as int)
    &&& forall|j: int|
        0 <= j < candidates.len() && holds_announced(data, #[trigger] candidates[j] as int)
            ==> announced_count(data) * candidates[j] < announced_count(data) * candidates[i] || (
        announced_count(data) * candidates[j] == announced_count(data) * candidates[i] && i <= j)
}

/// Where no candidate gives the expected number of records, the size taken is the first by which the
/// announced number of records takes the most bytes without taking more than there are, and the first
/// of all where each takes more. The sizes are ones by which the machine can count.
pub proof fn lemma_announced_candidate_taken(
    data: Seq<u8>,
    candidates: Seq<usize>,
    expected_count: int,
)
    requires
        candidates.len() > 0,
        forall|j: int|
            0 <= j < candidates.len() ==> !fits_exactly(
                data,
                #[trigger] candidates[j] as int,
                expected_count,
            ),
        forall|j: int|
            0 <= j < candidates.len() ==> is_countable(data, #[trigger] candidates[j] as int),
    ensures
        if exists|j: int|
            0 <= j < candidates.len() && holds_announced(data, #[trigger] candidates[j] as int) {
            exists|i: int| #[trigger]
                picks_announced(data, candidates, i) && chosen_size(
                    data,
                    candidates,
                    expected_count,
                ) == candidates[i]
        } else {
            chosen_size(data, candidates, expected_count) == candidates[0]
        },
{
    assert forall|j: int| 0 <= j < candidates.len() implies {
        &&& distance(data, #[trigger] candidates[j] as int) == announced_count(data) * candidates[j]
            - available_bytes(data)
        &&& fits_announced(data, candidates[j] as int) == holds_announced(data, candidates[j] as int)
    } by {
        assert(is_countable(data, candidates[j] as int));
    }
    lemma_some_pick(data, candidates, expected_count);
    let i = choose|i: int| picks(data, candidates, expected_count, i);
    lemma_pick_unique(data, candidates, expected_count, i);
    assert(distance(data, candidates[i] as int) == announced_count(data) * candidates[i]
        - available_bytes(data));
    if exists|j: int|
        0 <= j < candidates.len() && holds_announced(data, #[trigger] candidates[j] as int) {
        let j = choose|j: int|
            0 <= j < candidates.len() && holds_announced(data, #[trigger] candidates[j] as int);
        assert(fits_announced(data, candidates[j] as int));
        assert(picks_announced(data, candidates, i));
    } else {
        assert(forall|j: int|
            0 <= j < candidates.len() ==> !fits_announced(data, #[trigger] candidates[j] as int));
    }
}

/// Which `FixedMeta` streams are refused, and how: those without four bytes, and those that start with
/// another word than 0xFADFADBA.
pub proof fn lemma_fixed_meta_errors(data: Seq<u8>, item_size: int)
    ensures
        data.len() < 4 ==> fixed_meta_outcome(data, item_size) == Err::<Seq<Seq<u8>>, Seq<char>>(
            "FixedMeta: truncated"@,
        ),
        data.len() >= 4 ==> {
            let magic = data[0] + 256 * (data[1] + 256 * (data[2] + 256 * data[3]));
            &&& magic != 0xFADF_ADBA ==> fixed_meta_outcome(data, item_size) == Err::<
                Seq<Seq<u8>>,
                Seq<char>,
            >("FixedMeta: bad magic "@ + hex_word(magic as u32))
            &&& magic == 0xFADF_ADBA ==> fixed_meta_outcome(data, item_size) is Ok
        },
{
}

/// The records of a stream are as many as fit behind its first 16 bytes, one after the other, whatever
/// count the header holds. Records of no size are counted as if each took a byte.
pub proof fn lemma_records_of_stream(data: Seq<u8>, item_size: int, records: Seq<Seq<u8>>)
    requires
        0 <= item_size,
        fixed_meta_outcome(data, item_size) == Ok::<Seq<Seq<u8>>, Seq<char>>(records),
    ensures
        data.len() < 16 ==> records.len() == 0,
        data.len() >= 16 && item_size > 0 ==> {
            &&& 16 + records.len() * item_size <= data.len()
            &&& data.len() < 16 + (records.len() + 1) * item_size
        },
        data.len() >= 16 && item_size == 0 ==> records.len() == data.len() - 16,
        forall|i: int|
            0 <= i < records.len() ==> {
                &&& (#[trigger] records[i]).len() == item_size
                &&& forall|k: int|
                    0 <= k < item_size ==> #[trigger] records[i][k] == data[16 + i * item_size + k]
            },
{
    if item_size > 0 {
        let available = available_bytes(data);
        let count = records.len() as int;
        vstd::arithmetic::div_mod::lemma_fundamental_div_mod(available, item_size);
        vstd::arithmetic::div_mod::lemma_mod_bound(available, item_size);
        vstd::arithmetic::div_mod::lemma_div_pos_is_pos(available, item_size);
        assert(count == available / item_size);
        assert(item_size * count == count * item_size) by (nonlinear_arith);
        assert((count + 1) * item_size == count * item_size + item_size) by (nonlinear_arith);
        if data.len() < 16 {
            assert(0int / item_size == 0) by (nonlinear_arith)
                requires
                    item_size > 0,
            ;
        }
    }
    assert forall|i: int| 0 <= i < records.len() implies {
        &&& (#[trigger] records[i]).len() == item_size
        &&& forall|k: int|
            0 <= k < item_size ==> #[trigger] records[i][k] == data[16 + i * item_size + k]
    } by {
        lemma_record_fits(data, item_size, i);
    }
}

/// Which bytes an item has: from the offset at byte 4 of its record on, up to the offset of the next
/// record, if there is one and it is not smaller, and never past the end of the store. There is no
/// item without an offset, with an offset past the store, nor where the two offsets are the same.
pub proof fn lemma_item_of_store(records: Seq<Seq<u8>>, data: Seq<u8>, i: int)
    requires
        0 <= i < records.len(),
    ensures
        fixed_items(records, data).len() == records.len(),
        u32_at(records[i], 4) is None ==> fixed_items(records, data)[i] is None,
        u32_at(records[i], 4) matches Some(offset) ==> {
            let item = fixed_items(records, data)[i];
            let next = u32_at(records[i + 1], 4);
            let goes_on = i + 1 < records.len() && next is Some && next->0 >= offset;
            &&& offset > data.len() ==> item is None
            &&& offset <= data.len() && goes_on ==> {
                &&& item is None <==> next->0 == offset
                &&& item is Some && next->0 <= data.len() ==> item->0.len() == next->0 - offset
                &&& item is Some && next->0 > data.len() ==> item->0.len() == data.len() - offset
            }
            &&& offset <= data.len() && !goes_on ==> {
                &&& item is None <==> offset == data.len()
                &&& item is Some ==> item->0.len() == data.len() - offset
            }
            &&& item is Some ==> forall|k: int|
                0 <= k < item->0.len() ==> #[trigger] item->0[k] == data[offset + k]
        },
{
}

/// A signed machine integer that differs from a number by a multiple of the number of words is what
/// machine arithmetic makes of it.
proof fn lemma_machine_int(x: int, d: int, k: int)
    requires
        isize::MIN <= d <= isize::MAX,
        x == d + k * (usize::MAX + 1),
    ensures
        machine_int(x) == d,
{
    let modulus = usize::MAX + 1;
    assert(modulus == 2 * (isize::MAX + 1));
    assert(isize::MIN == -(isize::MAX + 1));
    assert(modulus * k == k * modulus) by (nonlinear_arith);
    vstd::arithmetic::div_mod::lemma_mod_multiples_vanish(k, d, modulus);
    if d >= 0 {
        vstd::arithmetic::div_mod::lemma_small_mod(d as nat, modulus as nat);
    } else {
        vstd::arithmetic::div_mod::lemma_small_mod((d + modulus) as nat, modulus as nat);
        vstd::arithmetic::div_mod::lemma_mod_add_multiples_vanish(d, modulus);
    }
}

/// Whether bytes are just a number of records of a size.
pub open spec fn is_filled(bytes: int, size: int, count: int) -> bool {
    size > 0 && bytes == size * count
}

/// Whether bytes are a whole number of records of a size, by which they are not exceeded.
pub open spec fn is_not_exceeded(bytes: int, size: int, announced: int, excess: int) -> bool {
    &&& size > 0
    &&& bytes % size == 0
    &&& excess <= 0
    &&& announced * size <= isize::MAX || excess != isize::MIN
}

/// Which candidate is taken. Let `bytes` be the number of bytes behind the first 16, `announced` the
/// word at byte 8, and let `excess` tell for each candidate how many bytes more the announced number
/// of records of its size takes: exactly, where the machine can count them, and otherwise up to a
/// multiple of the number of words. Then the first candidate is taken by which the bytes are just the
/// expected number of records; if there is none, of those by which they are a whole number of records
/// and not exceeded the first with the greatest excess; if there is none, the first of all.
pub proof fn lemma_candidate_choice(
    data: Seq<u8>,
    candidates: Seq<usize>,
    expected_count: int,
    bytes: int,
    announced: int,
    excess: Seq<int>,
    wraps: Seq<int>,
) -> (i: int)
    requires
        candidates.len() > 0,
        0 <= expected_count,
        data.len() < 16 ==> bytes == 0,
        data.len() >= 16 ==> bytes == data.len() - 16,
        data.len() < 12 ==> announced == 0,
        data.len() >= 12 ==> announced == data[8] + 256 * (data[9] + 256 * (data[10] + 256
            * data[11])),
        excess.len() == candidates.len(),
        wraps.len() == candidates.len(),
        forall|j: int|
            0 <= j < candidates.len() ==> {
                &&& announced * #[trigger] candidates[j] <= isize::MAX ==> excess[j] == announced
                    * candidates[j] - bytes
                &&& announced * candidates[j] > isize::MAX ==> {
                    &&& isize::MIN <= excess[j] <= isize::MAX
                    &&& announced * candidates[j] - bytes == excess[j] + wraps[j] * (usize::MAX + 1)
                }
            },
    ensures
        0 <= i < candidates.len(),
        chosen_size(data, candidates, expected_count) == candidates[i],
        (exists|j: int|
            0 <= j < candidates.len() && is_filled(
                bytes,
                #[trigger] candidates[j] as int,
                expected_count,
            )) ==> is_filled(bytes, candidates[i] as int, expected_count) && forall|j: int|
            0 <= j < i ==> !is_filled(bytes, #[trigger] candidates[j] as int, expected_count),
        (forall|j: int|
            0 <= j < candidates.len() ==> !is_filled(
                bytes,
                #[trigger] candidates[j] as int,
                expected_count,
            )) ==> {
            &&& (exists|j: int|
                0 <= j < candidates.len() && is_not_exceeded(
                    bytes,
                    #[trigger] candidates[j] as int,
                    announced,
                    excess[j],
                )) ==> is_not_exceeded(bytes, candidates[i] as int, announced, excess[i]) && forall|
                j: int,
            |
                0 <= j < candidates.len() && is_not_exceeded(
                    bytes,
                    #[trigger] candidates[j] as int,
                    announced,
                    excess[j],
                ) ==> excess[j] < excess[i] || (excess[j] == excess[i] && i <= j)
            &&& (forall|j: int|
                0 <= j < candidates.len() ==> !is_not_exceeded(
                    bytes,
                    #[trigger] candidates[j] as int,
                    announced,
                    excess[j],
                )) ==> i == 0
        },
{
    assert(announced == announced_count(data) && bytes == available_bytes(data));
    assert forall|j: int| 0 <= j < candidates.len() implies {
        &&& fits_exactly(data, #[trigger] candidates[j] as int, expected_count) == is_filled(
            bytes,
            candidates[j] as int,
            expected_count,
        )
        &&& fits_announced(data, candidates[j] as int) == is_not_exceeded(
            bytes,
            candidates[j] as int,
            announced,
            excess[j],
        )
        &&& distance(data, candidates[j] as int) == excess[j]
    } by {
        let size = candidates[j] as int;
        if size > 0 {
            vstd::arithmetic::div_mod::lemma_fundamental_div_mod(bytes, size);
            if bytes == size * expected_count {
                assert(size * expected_count == expected_count * size) by (nonlinear_arith);
                vstd::arithmetic::div_mod::lemma_mod_multiples_basic(expected_count, size);
                vstd::arithmetic::div_mod::lemma_div_by_multiple(expected_count, size);
            }
        }
        if announced * size > isize::MAX {
            lemma_machine_int(announced * size - bytes, excess[j], wraps[j]);
        }
    }
    lemma_some_pick(data, candidates, expected_count);
    let i = choose|i: int| picks(data, candidates, expected_count, i);
    lemma_pick_unique(data, candidates, expected_count, i);
    i
}

} // verus!
