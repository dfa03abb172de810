//! What the reader promises of the tasks of a file, in terms of the bytes of their blocks.
use crate::calendar::iso_text;
use crate::dates::{
    date_at, date_window, is_believable, is_date_of, is_scheduled, lemma_date_is_believable, schedules,
};
use crate::model::TaskView;
use crate::tasks::{
    id_offsets, is_name_hit, lemma_task_places, name_hits, outline_level_of, TaskTables,
};
use crate::utf16::text_at;
use crate::util::{i32_at, lemma_timestamp_value, stamp_at};
use crate::var::VarIndex;
use vstd::prelude::*;

verus! {

/// The number at a place of a block, unless the block is a placeholder, which has 16 bytes.
pub open spec fn number_at(block: Option<Seq<u8>>, place: int) -> Option<i32> {
    match block {
        Some(bytes) => if bytes.len() != 16 {
            i32_at(bytes, place)
        } else {
            None
        },
        None => None,
    }
}

/// The name of a unique id: the text that field 14 points at, empty if there is none.
pub open spec fn name_of(index: VarIndex, values: Map<i32, Seq<u8>>, unique_id: i32) -> Seq<char> {
    match index.offset(unique_id, 14) {
        Some(offset) => if values.contains_key(offset) {
            text_at(values[offset], 0)
        } else {
            Seq::empty()
        },
        None => Seq::empty(),
    }
}

/// The blocks in which the number at a place has a name.
pub open spec fn named_blocks(
    blocks: Seq<Option<Seq<u8>>>,
    index: VarIndex,
    values: Map<i32, Seq<u8>>,
    place: int,
) -> Set<int> {
    Set::new(
        |i: int|
            0 <= i < blocks.len() && number_at(blocks[i], place) is Some && name_of(
                index,
                values,
                number_at(blocks[i], place)->0,
            ).len() > 0,
    )
}

/// The count of named blocks is that of their places.
pub proof fn lemma_name_hits(
    blocks: Seq<Option<Seq<u8>>>,
    index: VarIndex,
    values: Map<i32, Seq<u8>>,
    place: int,
)
    ensures
        named_blocks(blocks, index, values, place).finite(),
        named_blocks(blocks, index, values, place).len() == name_hits(blocks, index, values, place),
    decreases blocks.len(),
{
    let all = named_blocks(blocks, index, values, place);
    if blocks.len() == 0 {
        assert(all =~= Set::empty());
    } else {
        let fewer = blocks.drop_last();
        let last = blocks.len() - 1;
        let some = named_blocks(fewer, index, values, place);
        lemma_name_hits(fewer, index, values, place);
        assert(!some.contains(last));
        assert(forall|i: int| 0 <= i < last ==> fewer[i] == blocks[i]);
        if is_name_hit(blocks.last(), index, values, place) {
            assert(all =~= some.insert(last));
        } else {
            assert(all =~= some);
        }
    }
}

/// Unique id and id stand at bytes 4 and 0 of the blocks, if more blocks have a name for the number at
/// byte 4 than for the number at byte 0, and otherwise at bytes 0 and 4.
pub proof fn lemma_id_places(
    blocks: Seq<Option<Seq<u8>>>,
    index: VarIndex,
    values: Map<i32, Seq<u8>>,
)
    ensures
        named_blocks(blocks, index, values, 4).len() > named_blocks(blocks, index, values, 0).len()
            ==> id_offsets(blocks, index, values) == (4usize, 0usize),
        named_blocks(blocks, index, values, 4).len() <= named_blocks(blocks, index, values, 0).len()
            ==> id_offsets(blocks, index, values) == (0usize, 4usize),
{
    lemma_name_hits(blocks, index, values, 4);
    lemma_name_hits(blocks, index, values, 0);
}

/// Whether more blocks have a name for the number at byte 4 than for the number at byte 0.
pub open spec fn is_swapped(tables: TaskTables) -> bool {
    named_blocks(tables.blocks, tables.index, tables.values, 4).len() > named_blocks(
        tables.blocks,
        tables.index,
        tables.values,
        0,
    ).len()
}

/// Which blocks the tasks of a project come from, and in which order. The unique id of a task is the
/// number at byte 4 of its block, and its id the one at byte 0, if the numbers at byte 4 have more
/// names, and the other way round if they do not. A block gives a task if and only if it has a unique
/// id that no block before it has. The tasks are in the order of their ids, and in that of their
/// blocks where these are equal. A block without a number at the place of the id has the id -1.
pub proof fn lemma_tasks_of_blocks(tables: TaskTables) -> (places: Seq<int>)
    ensures
        places.len() == tables.tasks().len(),
        forall|p: int|
            0 <= p < places.len() ==> {
                let block = tables.blocks[#[trigger] places[p]];
                let task = tables.tasks()[p];
                &&& 0 <= places[p] < tables.blocks.len()
                &&& is_swapped(tables) ==> {
                    &&& number_at(block, 4) == Some(task.unique_id)
                    &&& number_at(block, 0) is Some ==> number_at(block, 0) == Some(task.id)
                    &&& number_at(block, 0) is None ==> task.id == -1
                }
                &&& !is_swapped(tables) ==> {
                    &&& number_at(block, 0) == Some(task.unique_id)
                    &&& number_at(block, 4) is Some ==> number_at(block, 4) == Some(task.id)
                    &&& number_at(block, 4) is None ==> task.id == -1
                }
            },
        is_swapped(tables) ==> forall|i: int|
            0 <= i < tables.blocks.len() ==> (#[trigger] places.contains(i) <==> number_at(
                tables.blocks[i],
                4,
            ) is Some && forall|j: int|
                0 <= j < i ==> number_at(#[trigger] tables.blocks[j], 4) != number_at(
                    tables.blocks[i],
                    4,
                )),
        !is_swapped(tables) ==> forall|i: int|
            0 <= i < tables.blocks.len() ==> (#[trigger] places.contains(i) <==> number_at(
                tables.blocks[i],
                0,
            ) is Some && forall|j: int|
                0 <= j < i ==> number_at(#[trigger] tables.blocks[j], 0) != number_at(
                    tables.blocks[i],
                    0,
                )),
        forall|p: int, q: int|
            0 <= p < q < places.len() ==> {
                &&& #[trigger] places[p] != #[trigger] places[q]
                &&& tables.tasks()[p].unique_id != tables.tasks()[q].unique_id
                &&& {
                    ||| tables.tasks()[p].id < tables.tasks()[q].id
                    ||| tables.tasks()[p].id == tables.tasks()[q].id && places[p] < places[q]
                }
            },
{
    let places = lemma_task_places(tables);
    let place = unique_id_place(tables);
    assert forall|p: int| 0 <= p < places.len() implies {
        let block = tables.blocks[#[trigger] places[p]];
        let task = tables.tasks()[p];
        &&& 0 <= places[p] < tables.blocks.len()
        &&& number_at(block, place) == Some(task.unique_id)
        &&& number_at(block, 4 - place) is Some ==> number_at(block, 4 - place) == Some(task.id)
        &&& number_at(block, 4 - place) is None ==> task.id == -1
    } by {
        lemma_numbers_of_block(tables, places[p]);
    }
    assert forall|i: int| 0 <= i < tables.blocks.len() implies (#[trigger] places.contains(i)
        <==> number_at(tables.blocks[i], place) is Some && forall|j: int|
        0 <= j < i ==> number_at(#[trigger] tables.blocks[j], place) != number_at(
            tables.blocks[i],
            place,
        )) by {
        lemma_first_block(tables, i);
        if places.contains(i) {
            let p = choose|p: int| 0 <= p < places.len() && places[p] == i;
            assert(tables.is_first(places[p]));
        }
    }
    assert forall|p: int, q: int| 0 <= p < q < places.len() implies {
        &&& #[trigger] places[p] != #[trigger] places[q]
        &&& tables.tasks()[p].unique_id != tables.tasks()[q].unique_id
    } by {
        lemma_distinct_blocks(tables, places, p, q);
    }
    places
}

/// Where the unique ids stand.
spec fn unique_id_place(tables: TaskTables) -> int {
    if is_swapped(tables) {
        4
    } else {
        0
    }
}

proof fn lemma_unique_id_at(tables: TaskTables, i: int)
    ensures
        tables.unique_id(i) == number_at(tables.blocks[i], unique_id_place(tables)),
{
    lemma_id_places(tables.blocks, tables.index, tables.values);
}

proof fn lemma_numbers_of_block(tables: TaskTables, i: int)
    requires
        tables.is_first(i),
    ensures
        ({
            let block = tables.blocks[i];
            let place = unique_id_place(tables);
            let task = tables.task(i);
            &&& number_at(block, place) == Some(task.unique_id)
            &&& number_at(block, 4 - place) is Some ==> number_at(block, 4 - place) == Some(task.id)
            &&& number_at(block, 4 - place) is None ==> task.id == -1
        }),
{
    lemma_unique_id_at(tables, i);
    lemma_id_places(tables.blocks, tables.index, tables.values);
}

proof fn lemma_first_block(tables: TaskTables, i: int)
    ensures
        ({
            let place = unique_id_place(tables);
            tables.is_first(i) <==> number_at(tables.blocks[i], place) is Some && forall|j: int|
                0 <= j < i ==> number_at(#[trigger] tables.blocks[j], place) != number_at(
                    tables.blocks[i],
                    place,
                )
        }),
{
    let place = unique_id_place(tables);
    lemma_unique_id_at(tables, i);
    assert forall|j: int| #[trigger] tables.unique_id(j) == number_at(tables.blocks[j], place) by {
        lemma_unique_id_at(tables, j);
    }
    if tables.is_first(i) {
        assert forall|j: int| 0 <= j < i implies number_at(#[trigger] tables.blocks[j], place)
            != number_at(tables.blocks[i], place) by {
            assert(tables.unique_id(j) != tables.unique_id(i));
        }
    }
}

proof fn lemma_distinct_blocks(tables: TaskTables, places: Seq<int>, p: int, q: int)
    requires
        0 <= p < q < places.len(),
        places.len() == tables.tasks().len(),
        0 <= places[p] && 0 <= places[q],
        tables.is_first(places[p]),
        tables.is_first(places[q]),
        tables.tasks()[p] == tables.task(places[p]),
        tables.tasks()[q] == tables.task(places[q]),
        tables.tasks()[p].id < tables.tasks()[q].id || places[p] < places[q],
    ensures
        places[p] != places[q],
        tables.tasks()[p].unique_id != tables.tasks()[q].unique_id,
{
    let a = places[p];
    let b = places[q];
    assert(a != b);
    assert(tables.unique_id(a) == Some(tables.tasks()[p].unique_id));
    assert(tables.unique_id(b) == Some(tables.tasks()[q].unique_id));
    assert(tables.unique_id(a) != tables.unique_id(b));
}

/// A task and the block that it comes from: a task of the project, and the first block that has its
/// unique id, at byte 4 where the numbers there have more names than those at byte 0, and at byte 0
/// where they do not.
pub open spec fn is_task_of(tables: TaskTables, task: TaskView, i: int) -> bool {
    &&& tables.tasks().contains(task)
    &&& 0 <= i < tables.blocks.len()
    &&& is_swapped(tables) ==> number_at(tables.blocks[i], 4) == Some(task.unique_id) && forall|j: int|
        0 <= j < i ==> number_at(#[trigger] tables.blocks[j], 4) != Some(task.unique_id)
    &&& !is_swapped(tables) ==> number_at(tables.blocks[i], 0) == Some(task.unique_id) && forall|
        j: int,
    |
        0 <= j < i ==> number_at(#[trigger] tables.blocks[j], 0) != Some(task.unique_id)
}

/// The block that a task comes from is the one it was read from.
proof fn lemma_task_of_block(tables: TaskTables, task: TaskView, i: int)
    requires
        is_task_of(tables, task, i),
    ensures
        task == tables.task(i),
        tables.blocks[i] is Some,
        tables.unique_id(i) == Some(task.unique_id),
{
    let places = lemma_task_places(tables);
    lemma_id_places(tables.blocks, tables.index, tables.values);
    let p = choose|p: int| 0 <= p < tables.tasks().len() && tables.tasks()[p] == task;
    let k = places[p];
    assert(tables.is_first(k) && tables.tasks()[p] == tables.task(k));
    let place: int = if is_swapped(tables) {
        4
    } else {
        0
    };
    assert(tables.unique_id(i) == number_at(tables.blocks[i], place));
    assert(tables.unique_id(k) == number_at(tables.blocks[k], place));
    assert(tables.unique_id(k) == Some(task.unique_id));
    if i < k {
        assert(tables.unique_id(i) != tables.unique_id(k));
    }
    if k < i {
        assert(number_at(tables.blocks[k], place) != Some(task.unique_id));
    }
}

/// Every task has the block that it comes from.
pub proof fn lemma_task_has_block(tables: TaskTables, task: TaskView) -> (i: int)
    requires
        tables.tasks().contains(task),
    ensures
        is_task_of(tables, task, i),
{
    let places = lemma_tasks_of_blocks(tables);
    let p = choose|p: int| 0 <= p < tables.tasks().len() && tables.tasks()[p] == task;
    assert(places[p] == places[p]);
    assert(places.contains(places[p]));
    places[p]
}

/// A task has the name that field 14 points at for its unique id, and none of the fields that the
/// format keeps elsewhere.
pub proof fn lemma_task_name(tables: TaskTables, task: TaskView)
    requires
        tables.tasks().contains(task),
    ensures
        task.name == name_of(tables.index, tables.values, task.unique_id),
        task.parent_unique_id is None,
        task.baseline_start is None,
        task.baseline_finish is None,
        task.work_hours is None,
        task.cost is None,
        task.fixed_cost is None,
        task.resource_names.len() == 0,
{
    let i = lemma_task_has_block(tables, task);
    lemma_task_of_block(tables, task, i);
}

/// The outline level of a block is the word at byte 40, if it is there and not zero. Otherwise it is
/// the byte at 172, if that is there and from 1 to 20, and otherwise zero.
pub proof fn lemma_outline_level(block: Seq<u8>)
    ensures
        block.len() >= 42 && block[40] + 256 * block[41] != 0 ==> outline_level_of(block) == block[40]
            + 256 * block[41],
        block.len() < 42 ==> outline_level_of(block) == 0,
        block.len() >= 42 && block[40] + 256 * block[41] == 0 ==> {
            &&& block.len() <= 172 ==> outline_level_of(block) == 0
            &&& block.len() > 172 && 1 <= block[172] <= 20 ==> outline_level_of(block) == block[172]
            &&& block.len() > 172 && !(1 <= block[172] <= 20) ==> outline_level_of(block) == 0
        },
{
}

/// The outline level and the percentage of a task are those in its block: the percentage is the word
/// at byte 90, or zero.
pub proof fn lemma_task_level(tables: TaskTables, task: TaskView, i: int, block: Seq<u8>)
    requires
        is_task_of(tables, task, i),
        tables.blocks[i] == Some(block),
    ensures
        block.len() >= 42 && block[40] + 256 * block[41] != 0 ==> task.outline_level == block[40] + 256
            * block[41],
        block.len() < 42 ==> task.outline_level == 0,
        block.len() >= 42 && block[40] + 256 * block[41] == 0 ==> {
            &&& block.len() <= 172 ==> task.outline_level == 0
            &&& block.len() > 172 && 1 <= block[172] <= 20 ==> task.outline_level == block[172]
            &&& block.len() > 172 && !(1 <= block[172] <= 20) ==> task.outline_level == 0
        },
        block.len() >= 92 ==> task.percent_complete == block[90] + 256 * block[91],
        block.len() < 92 ==> task.percent_complete == 0,
{
    lemma_task_of_block(tables, task, i);
    lemma_outline_level(block);
}

/// Each date of a task has its own place in the first block of the task, whatever else the file holds:
/// it is the timestamp there, if that can be believed.
pub proof fn lemma_task_dates(tables: TaskTables, task: TaskView, i: int, block: Seq<u8>)
    requires
        is_task_of(tables, task, i),
        tables.blocks[i] == Some(block),
    ensures
        is_date_of(task.scheduled_start, block, 64, tables.second_blocks),
        is_date_of(task.scheduled_finish, block, 68, tables.second_blocks),
        is_date_of(task.actual_start, block, 72, tables.second_blocks),
        is_date_of(task.actual_finish, block, 76, tables.second_blocks),
        is_date_of(task.early_start, block, 106, tables.second_blocks),
        is_date_of(task.early_finish, block, 8, tables.second_blocks),
        is_date_of(task.late_start, block, 12, tables.second_blocks),
        is_date_of(task.late_finish, block, 110, tables.second_blocks),
        is_date_of(task.deadline, block, 122, tables.second_blocks),
        is_date_of(task.constraint_date, block, 80, tables.second_blocks),
        is_date_of(task.created, block, 98, tables.second_blocks),
{
    lemma_task_of_block(tables, task, i);
    lemma_date_is_believable(block, 64, tables.second_blocks);
    lemma_date_is_believable(block, 68, tables.second_blocks);
    lemma_date_is_believable(block, 72, tables.second_blocks);
    lemma_date_is_believable(block, 76, tables.second_blocks);
    lemma_date_is_believable(block, 106, tables.second_blocks);
    lemma_date_is_believable(block, 8, tables.second_blocks);
    lemma_date_is_believable(block, 12, tables.second_blocks);
    lemma_date_is_believable(block, 110, tables.second_blocks);
    lemma_date_is_believable(block, 122, tables.second_blocks);
    lemma_date_is_believable(block, 80, tables.second_blocks);
    lemma_date_is_believable(block, 98, tables.second_blocks);
}

/// Whether the four bytes at a place are a time of day, counted in units of six seconds, and a day
/// count, for which there is a date.
pub open spec fn is_written(block: Seq<u8>, place: int, time: int, days: int) -> bool {
    &&& 0 <= place && place + 4 <= block.len()
    &&& block[place] + 256 * block[place + 1] == time
    &&& block[place + 2] + 256 * block[place + 3] == days
    &&& time != 65_535
    &&& 2 <= days <= 65_534
    &&& days >= 100 || time % 10 == 0
}

proof fn lemma_written(block: Seq<u8>, place: int, time: int, days: int)
    requires
        is_written(block, place, time, days),
    ensures
        stamp_at(block, place) matches Some(moment) && moment.seconds == 441_676_800 + 86_400 * days + 6
            * time,
{
    lemma_timestamp_value(block, place);
}

/// A date that can be believed is given back under the name of its place, whatever the second blocks
/// are.
pub proof fn lemma_written_dates(
    tables: TaskTables,
    task: TaskView,
    i: int,
    block: Seq<u8>,
    time: int,
    days: int,
)
    requires
        is_task_of(tables, task, i),
        tables.blocks[i] == Some(block),
        is_believable(tables.second_blocks, 441_676_800 + 86_400 * days + 6 * time),
    ensures
        is_written(block, 64, time, days) ==> task.scheduled_start == Some(
            iso_text(441_676_800 + 86_400 * days + 6 * time),
        ),
        is_written(block, 68, time, days) ==> task.scheduled_finish == Some(
            iso_text(441_676_800 + 86_400 * days + 6 * time),
        ),
        is_written(block, 72, time, days) ==> task.actual_start == Some(
            iso_text(441_676_800 + 86_400 * days + 6 * time),
        ),
        is_written(block, 76, time, days) ==> task.actual_finish == Some(
            iso_text(441_676_800 + 86_400 * days + 6 * time),
        ),
        is_written(block, 106, time, days) ==> task.early_start == Some(
            iso_text(441_676_800 + 86_400 * days + 6 * time),
        ),
        is_written(block, 8, time, days) ==> task.early_finish == Some(
            iso_text(441_676_800 + 86_400 * days + 6 * time),
        ),
        is_written(block, 12, time, days) ==> task.late_start == Some(
            iso_text(441_676_800 + 86_400 * days + 6 * time),
        ),
        is_written(block, 110, time, days) ==> task.late_finish == Some(
            iso_text(441_676_800 + 86_400 * days + 6 * time),
        ),
        is_written(block, 122, time, days) ==> task.deadline == Some(
            iso_text(441_676_800 + 86_400 * days + 6 * time),
        ),
        is_written(block, 80, time, days) ==> task.constraint_date == Some(
            iso_text(441_676_800 + 86_400 * days + 6 * time),
        ),
        is_written(block, 98, time, days) ==> task.created == Some(
            iso_text(441_676_800 + 86_400 * days + 6 * time),
        ),
{
    lemma_task_dates(tables, task, i, block);
    if is_written(block, 64, time, days) {
        lemma_written(block, 64, time, days);
    }
    if is_written(block, 68, time, days) {
        lemma_written(block, 68, time, days);
    }
    if is_written(block, 72, time, days) {
        lemma_written(block, 72, time, days);
    }
    if is_written(block, 76, time, days) {
        lemma_written(block, 76, time, days);
    }
    if is_written(block, 106, time, days) {
        lemma_written(block, 106, time, days);
    }
    if is_written(block, 8, time, days) {
        lemma_written(block, 8, time, days);
    }
    if is_written(block, 12, time, days) {
        lemma_written(block, 12, time, days);
    }
    if is_written(block, 110, time, days) {
        lemma_written(block, 110, time, days);
    }
    if is_written(block, 122, time, days) {
        lemma_written(block, 122, time, days);
    }
    if is_written(block, 80, time, days) {
        lemma_written(block, 80, time, days);
    }
    if is_written(block, 98, time, days) {
        lemma_written(block, 98, time, days);
    }
}

/// A start in the second block of a task, at byte 50, is its start; without one, the start at byte 46
/// is, and without that the scheduled start. A finish in the second block, at byte 54, is its finish,
/// and without one the scheduled finish is.
pub proof fn lemma_task_start_and_finish(
    tables: TaskTables,
    task: TaskView,
    i: int,
    blocks: Seq<Option<Seq<u8>>>,
)
    requires
        is_task_of(tables, task, i),
    ensures
        tables.second_blocks is None ==> task.start == task.scheduled_start && task.finish
            == task.scheduled_finish,
        tables.second_blocks == Some(blocks) && (blocks.len() <= i || blocks[i] is None) ==> task.start
            == task.scheduled_start && task.finish == task.scheduled_finish,
        tables.second_blocks == Some(blocks) && i < blocks.len() && blocks[i] is Some ==> {
            let second = blocks[i]->0;
            &&& stamp_at(second, 50) matches Some(moment) ==> task.start == Some(
                iso_text(moment.seconds as int),
            )
            &&& stamp_at(second, 50) is None ==> (stamp_at(second, 46) matches Some(moment)
                ==> task.start == Some(iso_text(moment.seconds as int)))
            &&& stamp_at(second, 50) is None && stamp_at(second, 46) is None ==> task.start
                == task.scheduled_start
            &&& stamp_at(second, 54) matches Some(moment) ==> task.finish == Some(
                iso_text(moment.seconds as int),
            )
            &&& stamp_at(second, 54) is None ==> task.finish == task.scheduled_finish
        },
{
    lemma_task_of_block(tables, task, i);
    if tables.second_blocks == Some(blocks) && i < blocks.len() && blocks[i] is Some {
        let second = blocks[i]->0;
        lemma_own_dates_believable(blocks, i, second, 50);
        lemma_own_dates_believable(blocks, i, second, 46);
        lemma_own_dates_believable(blocks, i, second, 54);
    }
}

/// A start or a finish of a second block can always be believed.
proof fn lemma_own_dates_believable(
    blocks: Seq<Option<Seq<u8>>>,
    i: int,
    second: Seq<u8>,
    place: int,
)
    requires
        0 <= i < blocks.len(),
        blocks[i] == Some(second),
        place == 46 || place == 50 || place == 54,
    ensures
        stamp_at(second, place) matches Some(moment) ==> date_at(
            Some(second),
            place,
            date_window(Some(blocks)),
        ) == Some(iso_text(moment.seconds as int)),
        stamp_at(second, place) is None ==> date_at(
            Some(second),
            place,
            date_window(Some(blocks)),
        ) is None,
{
    if let Some(moment) = stamp_at(second, place) {
        let all = Some(blocks);
        assert(schedules(all->0[i], moment.seconds as int));
        assert(is_scheduled(all, moment.seconds as int));
        assert(is_believable(all, moment.seconds as int));
        lemma_date_is_believable(second, place, all);
    }
}

/// No date of a task lies more than a day before the earliest or more than a day after the latest
/// start or finish of the second blocks: for each there is a moment with that date, and a start or a
/// finish on either side that is no more than a day away, or already past.
pub proof fn lemma_no_date_out_of_reach(tables: TaskTables, task: TaskView, text: Seq<char>)
    requires
        tables.tasks().contains(task),
        task.start == Some(text) || task.finish == Some(text) || task.scheduled_start == Some(text)
            || task.scheduled_finish == Some(text) || task.actual_start == Some(text)
            || task.actual_finish == Some(text) || task.early_start == Some(text)
            || task.early_finish == Some(text) || task.late_start == Some(text) || task.late_finish
            == Some(text) || task.deadline == Some(text) || task.constraint_date == Some(text)
            || task.created == Some(text),
    ensures
        exists|seconds: int|
            #[trigger] iso_text(seconds) == text && {
                ||| forall|other: int| !is_scheduled(tables.second_blocks, other)
                ||| {
                    &&& exists|other: int| #[trigger]
                        is_scheduled(tables.second_blocks, other) && seconds >= other - 86_400
                    &&& exists|other: int| #[trigger]
                        is_scheduled(tables.second_blocks, other) && seconds <= other + 86_400
                }
            },
{
    let i = lemma_task_has_block(tables, task);
    lemma_task_of_block(tables, task, i);
    let block = tables.blocks[i]->0;
    let blocks = tables.second_blocks;
    lemma_task_dates(tables, task, i, block);
    if blocks is Some && i < blocks->0.len() && blocks->0[i] is Some {
        let items = blocks->0;
        let second = items[i]->0;
        lemma_task_start_and_finish(tables, task, i, items);
        lemma_date_is_believable(second, 50, blocks);
        lemma_date_is_believable(second, 46, blocks);
        lemma_date_is_believable(second, 54, blocks);
        lemma_own_dates_believable(items, i, second, 50);
        lemma_own_dates_believable(items, i, second, 46);
        lemma_own_dates_believable(items, i, second, 54);
    } else {
        lemma_task_start_and_finish(tables, task, i, blocks->0);
    }
}

} // verus!
