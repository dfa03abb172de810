//! The dates of tasks, and the span of time that they are believed in.
//!
//! A file can hold bytes at the place of a date that are none. The second blocks of the tasks hold
//! starts and finishes that can be trusted, and a date far from all of those is taken for none.
use crate::calendar::{iso_text, Timestamp, SECONDS_PER_DAY};
use crate::fixed::FixedData;
use crate::model::text_view;
use crate::util::{get_timestamp, lemma_stamp_valid, stamp_at, to_iso, EPOCH_SECONDS};
use crate::var::slice_view;
use vstd::prelude::*;

verus! {

// Offsets in the second fixed block of a task.
pub const FIX1_START_ALT: usize = 46;

pub const FIX1_START: usize = 50;

pub const FIX1_FINISH: usize = 54;

/// The timestamp at an offset of an optional block.
pub open spec fn block_stamp(block: Option<Seq<u8>>, offset: int) -> Option<Timestamp> {
    match block {
        Some(b) => stamp_at(b, offset),
        None => None,
    }
}

/// Whether a second block holds a timestamp as a start or a finish.
pub open spec fn holds_stamp(block: Option<Seq<u8>>, moment: Timestamp) -> bool {
    ||| block_stamp(block, FIX1_START_ALT as int) == Some(moment)
    ||| block_stamp(block, FIX1_START as int) == Some(moment)
    ||| block_stamp(block, FIX1_FINISH as int) == Some(moment)
}

/// Whether one of the second blocks holds a timestamp as a start or a finish.
pub open spec fn is_schedule_stamp(items: Seq<Option<Seq<u8>>>, moment: Timestamp) -> bool {
    exists|i: int| 0 <= i < items.len() && #[trigger] holds_stamp(items[i], moment)
}

/// Whether a timestamp is the earliest of those in the second blocks.
pub open spec fn is_earliest(items: Seq<Option<Seq<u8>>>, moment: Timestamp) -> bool {
    &&& is_schedule_stamp(items, moment)
    &&& forall|other: Timestamp| #[trigger]
        is_schedule_stamp(items, other) ==> moment.seconds <= other.seconds
}

/// Whether a timestamp is the latest of those in the second blocks.
pub open spec fn is_latest(items: Seq<Option<Seq<u8>>>, moment: Timestamp) -> bool {
    &&& is_schedule_stamp(items, moment)
    &&& forall|other: Timestamp| #[trigger]
        is_schedule_stamp(items, other) ==> other.seconds <= moment.seconds
}

/// The earliest timestamp in the second blocks.
pub open spec fn earliest(items: Seq<Option<Seq<u8>>>) -> Timestamp {
    choose|moment: Timestamp| is_earliest(items, moment)
}

/// The latest timestamp in the second blocks.
pub open spec fn latest(items: Seq<Option<Seq<u8>>>) -> Timestamp {
    choose|moment: Timestamp| is_latest(items, moment)
}

/// The span of time that dates are believed in: from a day before the earliest start or finish in the
/// second blocks to a day after the latest. There is none without such dates.
pub open spec fn date_window(fixed2: Option<Seq<Option<Seq<u8>>>>) -> Option<
    (Timestamp, Timestamp),
> {
    match fixed2 {
        Some(items) => if exists|moment: Timestamp| is_schedule_stamp(items, moment) {
            Some(
                (
                    Timestamp { seconds: (earliest(items).seconds - 86_400) as i64 },
                    Timestamp { seconds: (latest(items).seconds + 86_400) as i64 },
                ),
            )
        } else {
            None
        },
        None => None,
    }
}

/// The items of optional fixed data.
pub open spec fn fixed2_view(fixed2: Option<&FixedData>) -> Option<Seq<Option<Seq<u8>>>> {
    match fixed2 {
        Some(data) => Some(data@),
        None => None,
    }
}

/// Whether these are the earliest and the latest of the timestamps in the second blocks, if there
/// are any.
spec fn are_extremes(items: Seq<Option<Seq<u8>>>, extremes: Option<(Timestamp, Timestamp)>) -> bool {
    match extremes {
        Some((first, last)) => is_earliest(items, first) && is_latest(items, last),
        None => forall|moment: Timestamp| !is_schedule_stamp(items, moment),
    }
}

/// A span of time, stretched where a timestamp lies outside it.
spec fn widened(extremes: Option<(Timestamp, Timestamp)>, moment: Option<Timestamp>) -> Option<
    (Timestamp, Timestamp),
> {
    match (extremes, moment) {
        (Some((first, last)), Some(m)) => Some(
            (
                if m.seconds < first.seconds {
                    m
                } else {
                    first
                },
                if m.seconds > last.seconds {
                    m
                } else {
                    last
                },
            ),
        ),
        (None, Some(m)) => Some((m, m)),
        (_, None) => extremes,
    }
}

/// Stretches a span of time where a timestamp lies outside it.
fn widen(extremes: Option<(Timestamp, Timestamp)>, moment: Option<Timestamp>) -> (wider: Option<
    (Timestamp, Timestamp),
>)
    ensures
        wider == widened(extremes, moment),
{
    match (extremes, moment) {
        (Some((first, last)), Some(m)) => {
            let earliest = if m.seconds < first.seconds {
                m
            } else {
                first
            };
            let latest = if m.seconds > last.seconds {
                m
            } else {
                last
            };
            Some((earliest, latest))
        },
        (None, Some(m)) => Some((m, m)),
        (_, None) => extremes,
    }
}

/// One more block stretches the span by the timestamps it holds.
proof fn lemma_extremes_step(
    items: Seq<Option<Seq<u8>>>,
    block: Option<Seq<u8>>,
    extremes: Option<(Timestamp, Timestamp)>,
)
    requires
        are_extremes(items, extremes),
    ensures
        are_extremes(
            items.push(block),
            widened(
                widened(
                    widened(extremes, block_stamp(block, FIX1_START_ALT as int)),
                    block_stamp(block, FIX1_START as int),
                ),
                block_stamp(block, FIX1_FINISH as int),
            ),
        ),
{
    let more = items.push(block);
    assert forall|moment: Timestamp| #[trigger]
        is_schedule_stamp(more, moment) <==> is_schedule_stamp(items, moment) || holds_stamp(
            block,
            moment,
        ) by {
        if is_schedule_stamp(items, moment) {
            let i = choose|i: int| 0 <= i < items.len() && #[trigger] holds_stamp(items[i], moment);
            assert(holds_stamp(more[i], moment));
        }
        if holds_stamp(block, moment) {
            assert(holds_stamp(more[items.len() as int], moment));
        }
        if is_schedule_stamp(more, moment) {
            let i = choose|i: int| 0 <= i < more.len() && #[trigger] holds_stamp(more[i], moment);
            if i < items.len() {
                assert(holds_stamp(items[i], moment));
            }
        }
    }
}

/// The timestamps in the second blocks are far from the limits of their type.
proof fn lemma_stamp_bounds(items: Seq<Option<Seq<u8>>>, moment: Timestamp)
    requires
        is_schedule_stamp(items, moment),
    ensures
        EPOCH_SECONDS <= moment.seconds <= EPOCH_SECONDS + 65536 * 86_400 + 65536 * 6,
{
    let i = choose|i: int| 0 <= i < items.len() && #[trigger] holds_stamp(items[i], moment);
    assert(holds_stamp(items[i], moment));
}

/// The extremes are the earliest and the latest timestamp.
proof fn lemma_extremes(items: Seq<Option<Seq<u8>>>, first: Timestamp, last: Timestamp)
    requires
        is_earliest(items, first),
        is_latest(items, last),
    ensures
        earliest(items) == first,
        latest(items) == last,
{
    assert(is_earliest(items, earliest(items)));
    assert(is_latest(items, latest(items)));
    assert(is_schedule_stamp(items, earliest(items)) && is_schedule_stamp(items, latest(items)));
}

/// The window around given extremes.
proof fn lemma_window(items: Seq<Option<Seq<u8>>>, extremes: Option<(Timestamp, Timestamp)>)
    requires
        are_extremes(items, extremes),
    ensures
        date_window(Some(items)) == (match extremes {
            Some((first, last)) => Some(
                (
                    Timestamp { seconds: (first.seconds - 86_400) as i64 },
                    Timestamp { seconds: (last.seconds + 86_400) as i64 },
                ),
            ),
            None => None,
        }),
        extremes matches Some((first, last)) ==> EPOCH_SECONDS <= first.seconds && last.seconds
            <= EPOCH_SECONDS + 65536 * 86_400 + 65536 * 6,
{
    if let Some((first, last)) = extremes {
        assert(is_schedule_stamp(items, first));
        lemma_extremes(items, first, last);
        lemma_stamp_bounds(items, first);
        lemma_stamp_bounds(items, last);
        assert(exists|moment: Timestamp| is_schedule_stamp(items, moment));
        assert(date_window(Some(items)) is Some);
        let (from, to) = date_window(Some(items))->0;
        assert(from.seconds == first.seconds - 86_400);
        assert(to.seconds == last.seconds + 86_400);
    } else {
        assert(date_window(Some(items)) is None);
    }
}

/// Finds the span of time that dates are believed in.
pub fn project_date_window(fixed2: Option<&FixedData>) -> (window: Option<(Timestamp, Timestamp)>)
    ensures
        window == date_window(fixed2_view(fixed2)),
{
    let items = match fixed2 {
        Some(items) => items,
        None => return None,
    };
    let mut extremes: Option<(Timestamp, Timestamp)> = None;
    let mut i: usize = 0;
    let total: usize = items.item_count();
    while i < total
        invariant
            total == items@.len(),
            i <= total,
            are_extremes(items@.take(i as int), extremes),
        decreases total - i,
    {
        proof {
            lemma_extremes_step(items@.take(i as int), items@[i as int], extremes);
            assert(items@.take(i as int).push(items@[i as int]) =~= items@.take(i + 1));
        }
        match items.item(i) {
            Some(block) => {
                extremes = widen(extremes, get_timestamp(block, FIX1_START_ALT));
                extremes = widen(extremes, get_timestamp(block, FIX1_START));
                extremes = widen(extremes, get_timestamp(block, FIX1_FINISH));
            },
            None => {},
        }
        i += 1;
    }
    proof {
        assert(items@.take(total as int) =~= items@);
        lemma_window(items@, extremes);
    }
    match extremes {
        Some((first, last)) => Some(
            (
                Timestamp { seconds: first.seconds - SECONDS_PER_DAY },
                Timestamp { seconds: last.seconds + SECONDS_PER_DAY },
            ),
        ),
        None => None,
    }
}

/// Whether a moment lies in a window, if there is one. The ends belong to it.
pub open spec fn in_window(moment: Timestamp, window: Option<(Timestamp, Timestamp)>) -> bool {
    window matches Some((first, last)) ==> first.seconds <= moment.seconds <= last.seconds
}

/// The date at an offset of an optional block: none where there is no timestamp or where it lies
/// outside the window.
pub open spec fn date_at(
    block: Option<Seq<u8>>,
    offset: int,
    window: Option<(Timestamp, Timestamp)>,
) -> Option<Seq<char>> {
    match block_stamp(block, offset) {
        Some(moment) => if in_window(moment, window) {
            Some(iso_text(moment.seconds as int))
        } else {
            None
        },
        None => None,
    }
}

/// Reads the date at an offset of an optional block.
pub fn timestamp_at(data: Option<&[u8]>, offset: usize, window: Option<(Timestamp, Timestamp)>) -> (text:
    Option<String>)
    ensures
        text_view(text) == date_at(slice_view(data), offset as int, window),
{
    let block = match data {
        Some(block) => block,
        None => return None,
    };
    proof {
        lemma_stamp_valid(block@, offset as int);
    }
    match get_timestamp(block, offset) {
        Some(moment) => {
            if let Some((first, last)) = window {
                if moment.seconds < first.seconds || moment.seconds > last.seconds {
                    return None;
                }
            }
            Some(to_iso(moment))
        },
        None => None,
    }
}

/// Finitely many timestamps have an earliest and a latest, if there are any.
proof fn lemma_extremes_exist(items: Seq<Option<Seq<u8>>>) -> (extremes: Option<
    (Timestamp, Timestamp),
>)
    ensures
        are_extremes(items, extremes),
    decreases items.len(),
{
    if items.len() == 0 {
        None
    } else {
        let fewer = items.drop_last();
        let extremes = lemma_extremes_exist(fewer);
        let block = items.last();
        lemma_extremes_step(fewer, block, extremes);
        assert(fewer.push(block) =~= items);
        widened(
            widened(
                widened(extremes, block_stamp(block, FIX1_START_ALT as int)),
                block_stamp(block, FIX1_START as int),
            ),
            block_stamp(block, FIX1_FINISH as int),
        )
    }
}

/// Whether an optional text is a date in a window.
pub open spec fn is_date_in(
    text: Option<Seq<char>>,
    window: Option<(Timestamp, Timestamp)>,
) -> bool {
    text matches Some(t) ==> exists|moment: Timestamp| #[trigger]
        in_window(moment, window) && moment.valid() && t == iso_text(moment.seconds as int)
}

/// A date that is read lies in the window.
pub proof fn lemma_date_in_window(
    block: Option<Seq<u8>>,
    offset: int,
    window: Option<(Timestamp, Timestamp)>,
)
    ensures
        is_date_in(date_at(block, offset, window), window),
{
    if let Some(moment) = block_stamp(block, offset) {
        lemma_stamp_valid(block->0, offset);
        assert(in_window(moment, window) ==> is_date_in(date_at(block, offset, window), window));
    }
}

/// The window never leaves out a start or a finish of a second block.
pub proof fn lemma_window_holds_stamps(items: Seq<Option<Seq<u8>>>, moment: Timestamp)
    requires
        is_schedule_stamp(items, moment),
    ensures
        in_window(moment, date_window(Some(items))),
{
    let extremes = lemma_extremes_exist(items);
    lemma_window(items, extremes);
    if extremes is None {
        assert(!is_schedule_stamp(items, moment));
    }
}

/// A date is given for a window if and only if there is a timestamp that lies neither before its start
/// nor after its end; without a window, if there is a timestamp. It is that moment in ISO 8601 form.
pub proof fn lemma_date_of_window(block: Seq<u8>, offset: int, first: Timestamp, last: Timestamp)
    ensures
        date_at(None, offset, None) is None,
        date_at(None, offset, Some((first, last))) is None,
        stamp_at(block, offset) is None ==> date_at(Some(block), offset, None) is None && date_at(
            Some(block),
            offset,
            Some((first, last)),
        ) is None,
        stamp_at(block, offset) matches Some(moment) ==> {
            &&& date_at(Some(block), offset, None) == Some(iso_text(moment.seconds as int))
            &&& moment.seconds < first.seconds ==> date_at(Some(block), offset, Some((first, last))) is None
            &&& moment.seconds > last.seconds ==> date_at(Some(block), offset, Some((first, last))) is None
            &&& first.seconds <= moment.seconds && moment.seconds <= last.seconds ==> date_at(
                Some(block),
                offset,
                Some((first, last)),
            ) == Some(iso_text(moment.seconds as int))
        },
{
}

/// Whether a second block holds a moment as its start at byte 50 or 46 or as its finish at byte 54.
pub open spec fn schedules(block: Option<Seq<u8>>, seconds: int) -> bool {
    block matches Some(b) && {
        ||| stamp_at(b, 46) matches Some(moment) && moment.seconds == seconds
        ||| stamp_at(b, 50) matches Some(moment) && moment.seconds == seconds
        ||| stamp_at(b, 54) matches Some(moment) && moment.seconds == seconds
    }
}

/// Whether a moment is a start or a finish in one of the second blocks.
pub open spec fn is_scheduled(blocks: Option<Seq<Option<Seq<u8>>>>, seconds: int) -> bool {
    match blocks {
        Some(items) => exists|i: int|
            0 <= i < items.len() && #[trigger] schedules(items[i], seconds),
        None => false,
    }
}

/// Whether a moment can be believed to be a date of a project: it lies no more than a day before some
/// start or finish and no more than a day after some start or finish, or there are none.
pub open spec fn is_believable(blocks: Option<Seq<Option<Seq<u8>>>>, seconds: int) -> bool {
    ||| forall|other: int| !is_scheduled(blocks, other)
    ||| {
        &&& exists|other: int| #[trigger] is_scheduled(blocks, other) && other - 86_400 <= seconds
        &&& exists|other: int| #[trigger] is_scheduled(blocks, other) && seconds <= other + 86_400
    }
}

proof fn lemma_scheduled(items: Seq<Option<Seq<u8>>>, moment: Timestamp)
    ensures
        is_schedule_stamp(items, moment) <==> is_scheduled(Some(items), moment.seconds as int),
{
    if is_schedule_stamp(items, moment) {
        let i = choose|i: int| 0 <= i < items.len() && #[trigger] holds_stamp(items[i], moment);
        assert(schedules(items[i], moment.seconds as int));
        let blocks = Some(items);
        assert(schedules(blocks->0[i], moment.seconds as int));
        assert(is_scheduled(blocks, moment.seconds as int));
    }
    if is_scheduled(Some(items), moment.seconds as int) {
        let i = choose|i: int|
            0 <= i < items.len() && #[trigger] schedules(items[i], moment.seconds as int);
        assert(holds_stamp(items[i], moment));
        assert(is_schedule_stamp(items, moment));
    }
}

proof fn lemma_scheduled_seconds(items: Seq<Option<Seq<u8>>>, seconds: int) -> (moment: Timestamp)
    requires
        is_scheduled(Some(items), seconds),
    ensures
        moment.seconds == seconds,
        is_schedule_stamp(items, moment),
{
    let i = choose|i: int| 0 <= i < items.len() && #[trigger] schedules(items[i], seconds);
    let b = items[i]->0;
    let moment = if stamp_at(b, 46) matches Some(m) && m.seconds == seconds {
        stamp_at(b, 46)->0
    } else if stamp_at(b, 50) matches Some(m) && m.seconds == seconds {
        stamp_at(b, 50)->0
    } else {
        stamp_at(b, 54)->0
    };
    lemma_scheduled(items, moment);
    moment
}

/// The window holds just the moments that can be believed.
pub proof fn lemma_window_is_believable(blocks: Option<Seq<Option<Seq<u8>>>>, moment: Timestamp)
    ensures
        match date_window(blocks) {
            Some((first, last)) => first.seconds <= moment.seconds && moment.seconds <= last.seconds
                <==> is_believable(blocks, moment.seconds as int),
            None => is_believable(blocks, moment.seconds as int),
        },
        date_window(blocks) is Some <==> exists|other: int| is_scheduled(blocks, other),
{
    match blocks {
        None => {
            assert forall|other: int| !is_scheduled(blocks, other) by {}
        },
        Some(items) => {
            let extremes = lemma_extremes_exist(items);
            lemma_window(items, extremes);
            match extremes {
                None => {
                    assert forall|other: int| !is_scheduled(blocks, other) by {
                        if is_scheduled(blocks, other) {
                            let m = lemma_scheduled_seconds(items, other);
                            assert(!is_schedule_stamp(items, m));
                        }
                    }
                },
                Some((earliest, latest)) => {
                    lemma_scheduled(items, earliest);
                    lemma_scheduled(items, latest);
                    assert(is_scheduled(blocks, earliest.seconds as int));
                    assert(is_scheduled(blocks, latest.seconds as int));
                    assert forall|other: int| #[trigger] is_scheduled(
                        blocks,
                        other,
                    ) implies earliest.seconds <= other <= latest.seconds by {
                        let m = lemma_scheduled_seconds(items, other);
                        assert(is_schedule_stamp(items, m));
                    }
                },
            }
        },
    }
}

/// Whether a text is the date at a place of a block: the ISO 8601 form of the timestamp there, if it
/// can be believed, and nothing otherwise.
pub open spec fn is_date_of(
    text: Option<Seq<char>>,
    block: Seq<u8>,
    place: int,
    blocks: Option<Seq<Option<Seq<u8>>>>,
) -> bool {
    match stamp_at(block, place) {
        Some(moment) => {
            &&& is_believable(blocks, moment.seconds as int) ==> text == Some(
                iso_text(moment.seconds as int),
            )
            &&& !is_believable(blocks, moment.seconds as int) ==> text is None
        },
        None => text is None,
    }
}

/// The date at a place of a block, by the window of the second blocks, is that of a timestamp that can
/// be believed.
pub proof fn lemma_date_is_believable(
    block: Seq<u8>,
    place: int,
    blocks: Option<Seq<Option<Seq<u8>>>>,
)
    ensures
        is_date_of(date_at(Some(block), place, date_window(blocks)), block, place, blocks),
{
    if let Some(moment) = stamp_at(block, place) {
        lemma_window_is_believable(blocks, moment);
    }
}

} // verus!
