//! The tasks of a project, out of the parsed streams of the task storage.
//!
//! Fields stand at the default offsets of the format. Newer files keep some of them elsewhere, for
//! which there are fallbacks.
use crate::calendar::{iso_text, Timestamp};
use crate::dates::{
    block_stamp, date_at, date_window, holds_stamp, in_window, is_date_in, lemma_date_in_window,
    lemma_window_holds_stamps, project_date_window, timestamp_at, FIX1_FINISH, FIX1_START,
    FIX1_START_ALT,
};
use crate::fixed::FixedData;
use crate::model::{text_view, Task, TaskView};
use crate::order::{
    comes_before, lemma_stable_order_exists, sort_tasks, sorted_by_id, stable_order, task_ids,
};
use crate::utf16::{encode_utf16, unit_bytes};
use crate::util::{
    get_i32, get_u16, i32_at, i32_bytes, lemma_i32_roundtrip, lemma_stamp_roundtrip,
    lemma_u16_roundtrip, stamp_bytes, u16_at, u16_bytes, u32_bytes, EPOCH_SECONDS,
};
use crate::var::{
    field_text, lemma_field_roundtrip, stands_at, var_index, var_values, Var2Data, VarIndex, VarMeta,
    VarRecord,
};
use std::collections::BTreeSet;
use vstd::prelude::*;

verus! {

broadcast use vstd::laws_cmp::group_laws_cmp;

// Offsets in the first fixed block of a task.
pub const FIX0_UNIQUE_ID_DEFAULT: usize = 0;

pub const FIX0_ID_DEFAULT: usize = 4;

pub const FIX0_UNIQUE_ID_ALT: usize = 4;

pub const FIX0_ID_ALT: usize = 0;

pub const FIX0_OUTLINE_LEVEL: usize = 40;

pub const FIX0_OUTLINE_LEVEL_ALT: usize = 172;

pub const FIX0_EARLY_FINISH: usize = 8;

pub const FIX0_LATE_START: usize = 12;

pub const FIX0_SCHEDULED_START: usize = 64;

pub const FIX0_SCHEDULED_FINISH: usize = 68;

pub const FIX0_ACTUAL_START: usize = 72;

pub const FIX0_ACTUAL_FINISH: usize = 76;

pub const FIX0_CONSTRAINT_DATE: usize = 80;

pub const FIX0_PERCENT_COMPLETE: usize = 90;

pub const FIX0_CREATED: usize = 98;

pub const FIX0_EARLY_START: usize = 106;

pub const FIX0_LATE_FINISH: usize = 110;

pub const FIX0_DEADLINE: usize = 122;

/// The field key of the name of a task.
pub const VAR_NAME_KEY: i32 = 14;

/// The size of the block of a placeholder that is no task.
pub const NULL_TASK_BLOCK_SIZE: usize = 16;

/// The unique id in the first block of a task, if the block is that of a task and holds one.
pub open spec fn task_unique_id(item: Option<Seq<u8>>, unique_id_offset: int) -> Option<i32> {
    match item {
        Some(block) => if block.len() == NULL_TASK_BLOCK_SIZE {
            None
        } else {
            i32_at(block, unique_id_offset)
        },
        None => None,
    }
}

/// Whether an item is the block of a task whose unique id, read at an offset, has a name.
pub open spec fn is_name_hit(
    item: Option<Seq<u8>>,
    index: VarIndex,
    values: Map<i32, Seq<u8>>,
    unique_id_offset: int,
) -> bool {
    match task_unique_id(item, unique_id_offset) {
        Some(unique_id) => match field_text(index, values, unique_id, VAR_NAME_KEY) {
            Some(name) => name.len() > 0,
            None => false,
        },
        None => false,
    }
}

/// The number of blocks whose unique id, read at an offset, has a name.
pub open spec fn name_hits(
    items: Seq<Option<Seq<u8>>>,
    index: VarIndex,
    values: Map<i32, Seq<u8>>,
    unique_id_offset: int,
) -> nat
    decreases items.len(),
{
    if items.len() == 0 {
        0
    } else {
        name_hits(items.drop_last(), index, values, unique_id_offset) + (if is_name_hit(
            items.last(),
            index,
            values,
            unique_id_offset,
        ) {
            1nat
        } else {
            0
        })
    }
}

/// Where unique id and id stand in the first block of a task: the alternative places, if more unique
/// ids have a name there than at the default places.
pub open spec fn id_offsets(
    items: Seq<Option<Seq<u8>>>,
    index: VarIndex,
    values: Map<i32, Seq<u8>>,
) -> (usize, usize) {
    if name_hits(items, index, values, FIX0_UNIQUE_ID_ALT as int) > name_hits(
        items,
        index,
        values,
        FIX0_UNIQUE_ID_DEFAULT as int,
    ) {
        (FIX0_UNIQUE_ID_ALT, FIX0_ID_ALT)
    } else {
        (FIX0_UNIQUE_ID_DEFAULT, FIX0_ID_DEFAULT)
    }
}

/// Counts the blocks whose unique id, read at an offset, has a name.
pub fn name_hit_count(
    fixed_data: &FixedData,
    var_meta: &VarMeta,
    var_data: &Var2Data,
    unique_id_offset: usize,
) -> (count: usize)
    ensures
        count == name_hits(fixed_data@, var_meta@, var_data@, unique_id_offset as int),
{
    let mut count: usize = 0;
    let mut i: usize = 0;
    let total: usize = fixed_data.item_count();
    while i < total
        invariant
            total == fixed_data@.len(),
            count <= i <= total,
            count == name_hits(
                fixed_data@.take(i as int),
                var_meta@,
                var_data@,
                unique_id_offset as int,
            ),
        decreases total - i,
    {
        assert(fixed_data@.take(i + 1).drop_last() =~= fixed_data@.take(i as int));
        match fixed_data.item(i) {
            Some(block) => if block.len() != NULL_TASK_BLOCK_SIZE {
                match get_i32(block, unique_id_offset) {
                    Some(unique_id) => {
                        match var_data.get_unicode_string(var_meta, unique_id, VAR_NAME_KEY) {
                            Some(name) => if !name.as_str().is_empty() {
                                count += 1;
                            },
                            None => {},
                        }
                    },
                    None => {},
                }
            },
            None => {},
        }
        i += 1;
    }
    assert(fixed_data@.take(total as int) =~= fixed_data@);
    count
}

/// Chooses where unique id and id stand in the first block of a task.
pub fn choose_id_offsets(fixed_data: &FixedData, var_meta: &VarMeta, var_data: &Var2Data) -> (offsets:
    (usize, usize))
    ensures
        offsets == id_offsets(fixed_data@, var_meta@, var_data@),
{
    let default_hits: usize = name_hit_count(fixed_data, var_meta, var_data, FIX0_UNIQUE_ID_DEFAULT);
    let alt_hits: usize = name_hit_count(fixed_data, var_meta, var_data, FIX0_UNIQUE_ID_ALT);
    if alt_hits > default_hits {
        (FIX0_UNIQUE_ID_ALT, FIX0_ID_ALT)
    } else {
        (FIX0_UNIQUE_ID_DEFAULT, FIX0_ID_DEFAULT)
    }
}

/// The outline level in the first block of a task: a word at the default place, or, where that is
/// missing or zero, a byte from 1 to 20 at the alternative place, or zero.
pub open spec fn outline_level_of(block: Seq<u8>) -> u16 {
    let word = match u16_at(block, FIX0_OUTLINE_LEVEL as int) {
        Some(word) => word,
        None => 0,
    };
    if word != 0 {
        word
    } else if FIX0_OUTLINE_LEVEL_ALT < block.len() && 1 <= block[FIX0_OUTLINE_LEVEL_ALT as int]
        <= 20 {
        block[FIX0_OUTLINE_LEVEL_ALT as int] as u16
    } else {
        0
    }
}

/// Reads the outline level in the first block of a task.
pub fn outline_level(d0: &[u8]) -> (level: u16)
    ensures
        level == outline_level_of(d0@),
{
    match get_u16(d0, FIX0_OUTLINE_LEVEL) {
        Some(word) => if word != 0 {
            return word;
        },
        None => {},
    }
    if FIX0_OUTLINE_LEVEL_ALT < d0.len() {
        let byte: u8 = d0[FIX0_OUTLINE_LEVEL_ALT];
        if 1 <= byte && byte <= 20 {
            return byte as u16;
        }
    }
    0
}

/// The first of two optional texts that is there.
pub open spec fn first_text(first: Option<Seq<char>>, second: Option<Seq<char>>) -> Option<
    Seq<char>,
> {
    if first is Some {
        first
    } else {
        second
    }
}

/// Returns the first of two optional texts that is there.
fn or_text(first: Option<String>, second: &Option<String>) -> (text: Option<String>)
    ensures
        text_view(text) == first_text(text_view(first), text_view(*second)),
{
    match first {
        Some(text) => Some(text),
        None => match second {
            Some(text) => Some(text.clone()),
            None => None,
        },
    }
}

/// The parsed streams of the task storage: the first blocks of the tasks, their second blocks, and
/// the variable-length fields.
pub struct TaskTables {
    pub blocks: Seq<Option<Seq<u8>>>,
    pub second_blocks: Option<Seq<Option<Seq<u8>>>>,
    pub index: VarIndex,
    pub values: Map<i32, Seq<u8>>,
}

impl TaskTables {
    /// Where unique id and id stand in the first blocks.
    pub open spec fn id_offsets(self) -> (usize, usize) {
        id_offsets(self.blocks, self.index, self.values)
    }

    /// The span of time that dates are believed in.
    pub open spec fn window(self) -> Option<(Timestamp, Timestamp)> {
        date_window(self.second_blocks)
    }

    /// The unique id in a first block, if it is that of a task.
    pub open spec fn unique_id(self, i: int) -> Option<i32> {
        task_unique_id(self.blocks[i], self.id_offsets().0 as int)
    }

    /// The second block that belongs to a first block.
    pub open spec fn second_block(self, i: int) -> Option<Seq<u8>> {
        match self.second_blocks {
            Some(blocks) => if 0 <= i < blocks.len() {
                blocks[i]
            } else {
                None
            },
            None => None,
        }
    }

    /// Whether a first block is the first that holds a task with its unique id.
    pub open spec fn is_first(self, i: int) -> bool {
        &&& self.unique_id(i) is Some
        &&& forall|j: int| 0 <= j < i ==> #[trigger] self.unique_id(j) != self.unique_id(i)
    }

    /// A date in a first block.
    pub open spec fn date(self, i: int, offset: usize) -> Option<Seq<char>> {
        date_at(self.blocks[i], offset as int, self.window())
    }

    /// A date in a second block.
    pub open spec fn second_date(self, i: int, offset: usize) -> Option<Seq<char>> {
        date_at(self.second_block(i), offset as int, self.window())
    }

    /// The name of the task with a unique id: empty, if it has none.
    pub open spec fn name(self, unique_id: i32) -> Seq<char> {
        match field_text(self.index, self.values, unique_id, VAR_NAME_KEY) {
            Some(name) => name,
            None => Seq::empty(),
        }
    }

    /// The task in a first block.
    pub open spec fn task(self, i: int) -> TaskView
        recommends
            self.unique_id(i) is Some,
    {
        let block = self.blocks[i]->0;
        let unique_id = self.unique_id(i)->0;
        TaskView {
            unique_id,
            id: match i32_at(block, self.id_offsets().1 as int) {
                Some(id) => id,
                None => (-1) as i32,
            },
            name: self.name(unique_id),
            outline_level: outline_level_of(block),
            percent_complete: match u16_at(block, FIX0_PERCENT_COMPLETE as int) {
                Some(percent) => percent,
                None => 0,
            },
            start: first_text(
                first_text(self.second_date(i, FIX1_START), self.second_date(i, FIX1_START_ALT)),
                self.date(i, FIX0_SCHEDULED_START),
            ),
            finish: first_text(
                self.second_date(i, FIX1_FINISH),
                self.date(i, FIX0_SCHEDULED_FINISH),
            ),
            scheduled_start: self.date(i, FIX0_SCHEDULED_START),
            scheduled_finish: self.date(i, FIX0_SCHEDULED_FINISH),
            actual_start: self.date(i, FIX0_ACTUAL_START),
            actual_finish: self.date(i, FIX0_ACTUAL_FINISH),
            early_start: self.date(i, FIX0_EARLY_START),
            early_finish: self.date(i, FIX0_EARLY_FINISH),
            late_start: self.date(i, FIX0_LATE_START),
            late_finish: self.date(i, FIX0_LATE_FINISH),
            deadline: self.date(i, FIX0_DEADLINE),
            constraint_date: self.date(i, FIX0_CONSTRAINT_DATE),
            created: self.date(i, FIX0_CREATED),
            ..TaskView::empty()
        }
    }

    /// The tasks in the first `n` of the first blocks, one for each unique id, in file order.
    pub open spec fn first_tasks(self, n: int) -> Seq<TaskView>
        decreases n,
    {
        if n <= 0 {
            Seq::empty()
        } else if self.is_first(n - 1) {
            self.first_tasks(n - 1).push(self.task(n - 1))
        } else {
            self.first_tasks(n - 1)
        }
    }

    /// The tasks of the project, in the order of their ids.
    pub open spec fn tasks(self) -> Seq<TaskView> {
        sorted_by_id(self.first_tasks(self.blocks.len() as int))
    }
}

/// The tables that parsed streams make up.
pub open spec fn tables_of(
    fixed_data: FixedData,
    fixed2: Option<FixedData>,
    var_meta: VarMeta,
    var_data: Var2Data,
) -> TaskTables {
    TaskTables {
        blocks: fixed_data@,
        second_blocks: match fixed2 {
            Some(data) => Some(data@),
            None => None,
        },
        index: var_meta@,
        values: var_data@,
    }
}

/// Reads the task in a first block.
fn read_task(
    fixed_data: &FixedData,
    fixed2: &Option<FixedData>,
    var_meta: &VarMeta,
    var_data: &Var2Data,
    index: usize,
    block: &[u8],
    unique_id: i32,
    id_offset: usize,
    window: Option<(Timestamp, Timestamp)>,
) -> (task: Task)
    requires
        ({
            let tables = tables_of(*fixed_data, *fixed2, *var_meta, *var_data);
            &&& index < tables.blocks.len()
            &&& tables.blocks[index as int] == Some(block@)
            &&& tables.unique_id(index as int) == Some(unique_id)
            &&& tables.id_offsets().1 == id_offset
            &&& tables.window() == window
        }),
    ensures
        task@ == tables_of(*fixed_data, *fixed2, *var_meta, *var_data).task(index as int),
{
    let second: Option<&[u8]> = match fixed2 {
        Some(data) => data.item(index),
        None => None,
    };
    let scheduled_start = timestamp_at(Some(block), FIX0_SCHEDULED_START, window);
    let scheduled_finish = timestamp_at(Some(block), FIX0_SCHEDULED_FINISH, window);
    let second_start = timestamp_at(second, FIX1_START, window);
    let second_start_alt = timestamp_at(second, FIX1_START_ALT, window);
    let start = or_text(or_text(second_start, &second_start_alt), &scheduled_start);
    let finish = or_text(timestamp_at(second, FIX1_FINISH, window), &scheduled_finish);
    let id: i32 = match get_i32(block, id_offset) {
        Some(id) => id,
        None => -1,
    };
    let name = match var_data.get_unicode_string(var_meta, unique_id, VAR_NAME_KEY) {
        Some(name) => name,
        None => String::new(),
    };
    let percent_complete: u16 = match get_u16(block, FIX0_PERCENT_COMPLETE) {
        Some(percent) => percent,
        None => 0,
    };
    let task = Task {
        unique_id,
        id,
        name,
        outline_level: outline_level(block),
        percent_complete,
        start,
        finish,
        scheduled_start,
        scheduled_finish,
        actual_start: timestamp_at(Some(block), FIX0_ACTUAL_START, window),
        actual_finish: timestamp_at(Some(block), FIX0_ACTUAL_FINISH, window),
        early_start: timestamp_at(Some(block), FIX0_EARLY_START, window),
        early_finish: timestamp_at(Some(block), FIX0_EARLY_FINISH, window),
        late_start: timestamp_at(Some(block), FIX0_LATE_START, window),
        late_finish: timestamp_at(Some(block), FIX0_LATE_FINISH, window),
        deadline: timestamp_at(Some(block), FIX0_DEADLINE, window),
        constraint_date: timestamp_at(Some(block), FIX0_CONSTRAINT_DATE, window),
        created: timestamp_at(Some(block), FIX0_CREATED, window),
        parent_unique_id: None,
        baseline_start: None,
        baseline_finish: None,
        work_hours: None,
        cost: None,
        fixed_cost: None,
        resource_names: Vec::new(),
    };
    assert(task@ =~= tables_of(*fixed_data, *fixed2, *var_meta, *var_data).task(index as int));
    task
}

/// Reads all tasks, in the order of their ids. Where a unique id occurs again, the first occurrence
/// wins.
pub fn read_tasks(
    fixed_data: &FixedData,
    fixed2: &Option<FixedData>,
    var_meta: &VarMeta,
    var_data: &Var2Data,
) -> (tasks: Vec<Task>)
    ensures
        tasks@.map_values(|task: Task| task@) == tables_of(
            *fixed_data,
            *fixed2,
            *var_meta,
            *var_data,
        ).tasks(),
{
    let ghost tables = tables_of(*fixed_data, *fixed2, *var_meta, *var_data);
    let (unique_id_offset, id_offset) = choose_id_offsets(fixed_data, var_meta, var_data);
    let window = project_date_window(fixed2.as_ref());
    let mut tasks: Vec<Task> = Vec::new();
    let mut seen: BTreeSet<i32> = BTreeSet::new();
    let mut i: usize = 0;
    let total: usize = fixed_data.item_count();
    let ghost view = |task: Task| task@;
    while i < total
        invariant
            view == (|task: Task| task@),
            tables == tables_of(*fixed_data, *fixed2, *var_meta, *var_data),
            (unique_id_offset, id_offset) == tables.id_offsets(),
            window == tables.window(),
            total == tables.blocks.len(),
            i <= total,
            forall|u: i32| #[trigger]
                seen@.contains(u) <==> exists|j: int| 0 <= j < i && tables.unique_id(j) == Some(u),
            tasks@.map_values(view) == tables.first_tasks(i as int),
        decreases total - i,
    {
        let ghost before = tasks@;
        if let Some(block) = fixed_data.item(i) {
            if block.len() != NULL_TASK_BLOCK_SIZE {
                if let Some(unique_id) = get_i32(block, unique_id_offset) {
                    if seen.insert(unique_id) {
                        let task = read_task(
                            fixed_data,
                            fixed2,
                            var_meta,
                            var_data,
                            i,
                            block,
                            unique_id,
                            id_offset,
                            window,
                        );
                        tasks.push(task);
                        assert(tasks@.map_values(view) =~= before.map_values(view).push(task@));
                    }
                }
            }
        }
        i += 1;
    }
    sort_tasks(&mut tasks);
    tasks
}

/// The places of the first blocks whose tasks are kept, among the first `n`.
spec fn kept_places(tables: TaskTables, n: int) -> Seq<int>
    decreases n,
{
    if n <= 0 {
        Seq::empty()
    } else if tables.is_first(n - 1) {
        kept_places(tables, n - 1).push(n - 1)
    } else {
        kept_places(tables, n - 1)
    }
}

/// The kept tasks come from ascending places, each the first with its unique id, and none of those
/// is left out.
proof fn lemma_kept_places(tables: TaskTables, n: int)
    requires
        0 <= n,
    ensures
        ({
            let places = kept_places(tables, n);
            let tasks = tables.first_tasks(n);
            &&& tasks.len() == places.len()
            &&& forall|k: int|
                0 <= k < places.len() ==> {
                    &&& 0 <= #[trigger] places[k] < n
                    &&& tables.is_first(places[k])
                    &&& tasks[k] == tables.task(places[k])
                }
            &&& forall|k: int, l: int| 0 <= k < l < places.len() ==> places[k] < places[l]
            &&& forall|i: int| 0 <= i < n && #[trigger] tables.is_first(i) ==> places.contains(i)
        }),
    decreases n,
{
    if n > 0 {
        lemma_kept_places(tables, n - 1);
        let shorter = kept_places(tables, n - 1);
        let places = kept_places(tables, n);
        assert forall|i: int| 0 <= i < n && #[trigger] tables.is_first(i) implies places.contains(
            i,
        ) by {
            if i < n - 1 {
                assert(shorter.contains(i));
                let k = choose|k: int| 0 <= k < shorter.len() && shorter[k] == i;
                assert(places[k] == i);
            } else {
                assert(places[shorter.len() as int] == i);
            }
        }
    }
}

/// Where the tasks of the project come from: one place for each task, and each place the first with
/// its unique id. Where ids are equal, the places ascend.
pub proof fn lemma_task_places(tables: TaskTables) -> (places: Seq<int>)
    ensures
        places.len() == tables.tasks().len(),
        forall|p: int|
            0 <= p < places.len() ==> {
                &&& 0 <= #[trigger] places[p] < tables.blocks.len()
                &&& tables.is_first(places[p])
                &&& tables.tasks()[p] == tables.task(places[p])
            },
        forall|p: int, q: int|
            #![trigger places[p], places[q]]
            0 <= p < q < places.len() ==> {
                ||| tables.tasks()[p].id < tables.tasks()[q].id
                ||| tables.tasks()[p].id == tables.tasks()[q].id && places[p] < places[q]
            },
        forall|i: int|
            0 <= i < tables.blocks.len() && #[trigger] tables.is_first(i) ==> places.contains(i),
{
    let n = tables.blocks.len() as int;
    let kept = kept_places(tables, n);
    let first = tables.first_tasks(n);
    lemma_kept_places(tables, n);
    let ids = task_ids(first);
    let order = stable_order(ids);
    lemma_stable_order_exists(ids);
    let places = order.map_values(|k: int| kept[k]);
    assert forall|p: int, q: int|
        #![trigger places[p], places[q]]
        0 <= p < q < places.len() implies {
        ||| tables.tasks()[p].id < tables.tasks()[q].id
        ||| tables.tasks()[p].id == tables.tasks()[q].id && places[p] < places[q]
    } by {
        assert(comes_before(ids, order[p], order[q]));
    }
    assert forall|i: int|
        0 <= i < tables.blocks.len() && #[trigger] tables.is_first(i) implies places.contains(i) by {
        assert(kept.contains(i));
        let k = choose|k: int| 0 <= k < kept.len() && kept[k] == i;
        assert(order.contains(k));
        let p = choose|p: int| 0 <= p < order.len() && order[p] == k;
        assert(places[p] == i);
    }
    places
}

/// The tasks of a project are exactly those in the blocks that are the first with their unique id.
pub proof fn lemma_tasks_are_first_occurrences(tables: TaskTables)
    ensures
        forall|task: TaskView| #[trigger]
            tables.tasks().contains(task) <==> exists|i: int|
                0 <= i < tables.blocks.len() && #[trigger] tables.is_first(i) && task
                    == tables.task(i),
{
    let places = lemma_task_places(tables);
    assert forall|task: TaskView| #[trigger]
        tables.tasks().contains(task) <==> exists|i: int|
            0 <= i < tables.blocks.len() && #[trigger] tables.is_first(i) && task == tables.task(
                i,
            ) by {
        if tables.tasks().contains(task) {
            let p = choose|p: int| 0 <= p < tables.tasks().len() && tables.tasks()[p] == task;
            assert(tables.is_first(places[p]));
        }
        if exists|i: int|
            0 <= i < tables.blocks.len() && #[trigger] tables.is_first(i) && task == tables.task(i) {
            let i = choose|i: int|
                0 <= i < tables.blocks.len() && #[trigger] tables.is_first(i) && task
                    == tables.task(i);
            assert(places.contains(i));
            let p = choose|p: int| 0 <= p < places.len() && places[p] == i;
            assert(tables.tasks()[p] == task);
        }
    }
}

/// No two tasks of a project have the same unique id.
pub proof fn lemma_unique_ids_distinct(tables: TaskTables)
    ensures
        forall|p: int, q: int|
            0 <= p < q < tables.tasks().len() ==> tables.tasks()[p].unique_id
                != tables.tasks()[q].unique_id,
{
    let places = lemma_task_places(tables);
    assert forall|p: int, q: int| 0 <= p < q < tables.tasks().len() implies tables.tasks()[p].unique_id
        != tables.tasks()[q].unique_id by {
        let a = places[p];
        let b = places[q];
        assert(tables.is_first(a) && tables.is_first(b));
        assert(tables.unique_id(a) == Some(tables.tasks()[p].unique_id));
        assert(tables.unique_id(b) == Some(tables.tasks()[q].unique_id));
        if tables.unique_id(a) == tables.unique_id(b) {
            assert(a == b);
        }
    }
}

/// The tasks of a project are in ascending order of their ids, and those with equal ids in the order
/// of their blocks.
pub proof fn lemma_tasks_in_order(tables: TaskTables, p: int, q: int, a: int, b: int)
    requires
        0 <= p < q < tables.tasks().len(),
        0 <= a < tables.blocks.len(),
        0 <= b < tables.blocks.len(),
        tables.is_first(a),
        tables.is_first(b),
        tables.tasks()[p] == tables.task(a),
        tables.tasks()[q] == tables.task(b),
    ensures
        tables.task(a).id < tables.task(b).id || (tables.task(a).id == tables.task(b).id && a < b),
{
    let places = lemma_task_places(tables);
    lemma_same_place(tables, a, places[p]);
    lemma_same_place(tables, b, places[q]);
}

/// A unique id occurs first at one place only.
proof fn lemma_same_place(tables: TaskTables, a: int, b: int)
    requires
        0 <= a,
        0 <= b,
        tables.is_first(a),
        tables.is_first(b),
        tables.task(a).unique_id == tables.task(b).unique_id,
    ensures
        a == b,
{
    assert(tables.unique_id(a) == tables.unique_id(b));
}

/// The first place of a unique id.
proof fn lemma_first_place(tables: TaskTables, i: int) -> (first: int)
    requires
        0 <= i,
        tables.unique_id(i) is Some,
    ensures
        0 <= first <= i,
        tables.is_first(first),
        tables.unique_id(first) == tables.unique_id(i),
    decreases i,
{
    if tables.is_first(i) {
        i
    } else {
        let j = choose|j: int|
            0 <= j < i && #[trigger] tables.unique_id(j) == tables.unique_id(i);
        lemma_first_place(tables, j)
    }
}

/// Every unique id in a block of a task has a task in the project: that of its first block.
pub proof fn lemma_every_unique_id_kept(tables: TaskTables, i: int)
    requires
        0 <= i < tables.blocks.len(),
        tables.unique_id(i) is Some,
    ensures
        exists|first: int|
            0 <= first <= i && #[trigger] tables.is_first(first) && tables.unique_id(first)
                == tables.unique_id(i) && tables.tasks().contains(tables.task(first)),
{
    let first = lemma_first_place(tables, i);
    lemma_tasks_are_first_occurrences(tables);
    assert(tables.tasks().contains(tables.task(first)));
}

/// Every date of every task lies in the window: from a day before the earliest start or finish in the
/// second blocks to a day after the latest.
pub proof fn lemma_dates_in_window(tables: TaskTables, i: int)
    requires
        0 <= i < tables.blocks.len(),
        tables.unique_id(i) is Some,
    ensures
        is_date_in(tables.task(i).start, tables.window()),
        is_date_in(tables.task(i).finish, tables.window()),
        is_date_in(tables.task(i).scheduled_start, tables.window()),
        is_date_in(tables.task(i).scheduled_finish, tables.window()),
        is_date_in(tables.task(i).actual_start, tables.window()),
        is_date_in(tables.task(i).actual_finish, tables.window()),
        is_date_in(tables.task(i).early_start, tables.window()),
        is_date_in(tables.task(i).early_finish, tables.window()),
        is_date_in(tables.task(i).late_start, tables.window()),
        is_date_in(tables.task(i).late_finish, tables.window()),
        is_date_in(tables.task(i).deadline, tables.window()),
        is_date_in(tables.task(i).constraint_date, tables.window()),
        is_date_in(tables.task(i).created, tables.window()),
{
    let window = tables.window();
    let block = tables.blocks[i];
    let second = tables.second_block(i);
    lemma_date_in_window(second, FIX1_START as int, window);
    lemma_date_in_window(second, FIX1_START_ALT as int, window);
    lemma_date_in_window(second, FIX1_FINISH as int, window);
    lemma_date_in_window(block, FIX0_SCHEDULED_START as int, window);
    lemma_date_in_window(block, FIX0_SCHEDULED_FINISH as int, window);
    lemma_date_in_window(block, FIX0_ACTUAL_START as int, window);
    lemma_date_in_window(block, FIX0_ACTUAL_FINISH as int, window);
    lemma_date_in_window(block, FIX0_EARLY_START as int, window);
    lemma_date_in_window(block, FIX0_EARLY_FINISH as int, window);
    lemma_date_in_window(block, FIX0_LATE_START as int, window);
    lemma_date_in_window(block, FIX0_LATE_FINISH as int, window);
    lemma_date_in_window(block, FIX0_DEADLINE as int, window);
    lemma_date_in_window(block, FIX0_CONSTRAINT_DATE as int, window);
    lemma_date_in_window(block, FIX0_CREATED as int, window);
}

/// Without second blocks there is no window, and start and finish are the scheduled ones.
pub proof fn lemma_without_second_blocks(tables: TaskTables, i: int)
    requires
        tables.second_blocks is None,
    ensures
        tables.window() is None,
        tables.task(i).start == tables.task(i).scheduled_start,
        tables.task(i).finish == tables.task(i).scheduled_finish,
{
}

/// The window never takes away a start or a finish of a second block.
pub proof fn lemma_second_dates_kept(tables: TaskTables, i: int, offset: usize, moment: Timestamp)
    requires
        offset == FIX1_START || offset == FIX1_START_ALT || offset == FIX1_FINISH,
        block_stamp(tables.second_block(i), offset as int) == Some(moment),
    ensures
        tables.second_date(i, offset) == Some(iso_text(moment.seconds as int)),
{
    let blocks = tables.second_blocks->0;
    assert(holds_stamp(blocks[i], moment));
    lemma_window_holds_stamps(blocks, moment);
}

/// A start in the second block of a task is its start, and a finish its finish. The alternative start
/// counts where there is no start.
pub proof fn lemma_second_dates_win(tables: TaskTables, i: int)
    ensures
        block_stamp(tables.second_block(i), FIX1_START as int) matches Some(moment)
            ==> tables.task(i).start == Some(iso_text(moment.seconds as int)),
        block_stamp(tables.second_block(i), FIX1_START as int) is None ==> (block_stamp(
            tables.second_block(i),
            FIX1_START_ALT as int,
        ) matches Some(moment) ==> tables.task(i).start == Some(iso_text(moment.seconds as int))),
        block_stamp(tables.second_block(i), FIX1_FINISH as int) matches Some(moment)
            ==> tables.task(i).finish == Some(iso_text(moment.seconds as int)),
{
    let second = tables.second_block(i);
    if let Some(moment) = block_stamp(second, FIX1_START as int) {
        lemma_second_dates_kept(tables, i, FIX1_START, moment);
    }
    if let Some(moment) = block_stamp(second, FIX1_START_ALT as int) {
        lemma_second_dates_kept(tables, i, FIX1_START_ALT, moment);
    }
    if let Some(moment) = block_stamp(second, FIX1_FINISH as int) {
        lemma_second_dates_kept(tables, i, FIX1_FINISH, moment);
    }
}

/// What is written into the block of a task at the places in use is what is read from it.
pub proof fn lemma_task_roundtrip(
    tables: TaskTables,
    i: int,
    block: Seq<u8>,
    unique_id: i32,
    id: i32,
    outline_level: u16,
    percent_complete: u16,
)
    requires
        tables.blocks[i] == Some(block),
        block.len() != NULL_TASK_BLOCK_SIZE,
        stands_at(block, tables.id_offsets().0 as int, i32_bytes(unique_id)),
        stands_at(block, tables.id_offsets().1 as int, i32_bytes(id)),
        stands_at(block, FIX0_OUTLINE_LEVEL as int, u16_bytes(outline_level)),
        outline_level != 0,
        stands_at(block, FIX0_PERCENT_COMPLETE as int, u16_bytes(percent_complete)),
    ensures
        tables.unique_id(i) == Some(unique_id),
        tables.task(i).unique_id == unique_id,
        tables.task(i).id == id,
        tables.task(i).name == tables.name(unique_id),
        tables.task(i).outline_level == outline_level,
        tables.task(i).percent_complete == percent_complete,
{
    lemma_i32_roundtrip(block, tables.id_offsets().0 as int, unique_id);
    lemma_i32_roundtrip(block, tables.id_offsets().1 as int, id);
    lemma_u16_roundtrip(block, FIX0_OUTLINE_LEVEL as int, outline_level);
    lemma_u16_roundtrip(block, FIX0_PERCENT_COMPLETE as int, percent_complete);
}

/// A date that is written into the block of a task is what is read from it, if it lies in the window.
pub proof fn lemma_date_roundtrip(
    tables: TaskTables,
    i: int,
    block: Seq<u8>,
    offset: usize,
    time: u16,
    days: u16,
)
    requires
        tables.blocks[i] == Some(block),
        stands_at(block, offset as int, stamp_bytes(time, days)),
        time < 65535,
        2 <= days < 65535,
        days < 100 ==> time % 10 == 0,
        in_window(
            (Timestamp { seconds: (EPOCH_SECONDS + days * 86_400 + time * 6) as i64 }),
            tables.window(),
        ),
    ensures
        tables.date(i, offset) == Some(iso_text(EPOCH_SECONDS + days * 86_400 + time * 6)),
{
    lemma_stamp_roundtrip(block, offset as int, time, days);
}

/// The name that is written for a unique id, where the last record for it points, is the name that is
/// read for it.
pub proof fn lemma_name_roundtrip(
    tables: TaskTables,
    records: Seq<VarRecord>,
    i: int,
    data: Seq<u8>,
    name: Seq<char>,
)
    requires
        tables.index == var_index(records),
        tables.values == var_values(tables.index.offsets, data),
        0 <= i < records.len(),
        records[i].type_key == VAR_NAME_KEY,
        forall|j: int|
            i < j < records.len() ==> (#[trigger] records[j]).unique_id != records[i].unique_id
                || records[j].type_key != VAR_NAME_KEY,
        0 <= records[i].offset,
        forall|k: int| 0 <= k < name.len() ==> name[k] != '\0',
        2 * encode_utf16(name).len() + 2 <= u32::MAX,
        stands_at(
            data,
            records[i].offset as int,
            u32_bytes((2 * encode_utf16(name).len() + 2) as u32) + (unit_bytes(encode_utf16(name))
                + u16_bytes(0)),
        ),
    ensures
        tables.name(records[i].unique_id) == name,
{
    lemma_field_roundtrip(records, i, data, name);
}

/// Whether two tasks differ in their dates at most.
pub open spec fn same_but_dates(first: TaskView, second: TaskView) -> bool {
    &&& first.unique_id == second.unique_id
    &&& first.id == second.id
    &&& first.name == second.name
    &&& first.outline_level == second.outline_level
    &&& first.percent_complete == second.percent_complete
}

proof fn lemma_same_first_tasks(first: TaskTables, second: TaskTables, n: int)
    requires
        0 <= n,
        first.blocks == second.blocks,
        first.index == second.index,
        first.values == second.values,
    ensures
        first.first_tasks(n).len() == second.first_tasks(n).len(),
        forall|k: int|
            0 <= k < first.first_tasks(n).len() ==> same_but_dates(
                #[trigger] first.first_tasks(n)[k],
                second.first_tasks(n)[k],
            ),
    decreases n,
{
    if n > 0 {
        lemma_same_first_tasks(first, second, n - 1);
        assert(forall|j: int| #[trigger] first.unique_id(j) == second.unique_id(j));
        assert(first.is_first(n - 1) == second.is_first(n - 1)) by {
            if first.is_first(n - 1) {
                assert forall|j: int| 0 <= j < n - 1 implies #[trigger] second.unique_id(j)
                    != second.unique_id(n - 1) by {
                    assert(first.unique_id(j) != first.unique_id(n - 1));
                }
            }
        }
        assert(same_but_dates(first.task(n - 1), second.task(n - 1)));
    }
}

/// The second blocks decide on nothing but dates: without them, or with others, there are the same
/// tasks at the same places.
pub proof fn lemma_second_blocks_decide_dates(first: TaskTables, second: TaskTables)
    requires
        first.blocks == second.blocks,
        first.index == second.index,
        first.values == second.values,
    ensures
        first.tasks().len() == second.tasks().len(),
        forall|p: int|
            0 <= p < first.tasks().len() ==> same_but_dates(
                #[trigger] first.tasks()[p],
                second.tasks()[p],
            ),
{
    let n = first.blocks.len() as int;
    lemma_same_first_tasks(first, second, n);
    let a = first.first_tasks(n);
    let b = second.first_tasks(n);
    assert forall|k: int| 0 <= k < a.len() implies task_ids(a)[k] == task_ids(b)[k] by {
        assert(same_but_dates(a[k], b[k]));
    }
    assert(task_ids(a) =~= task_ids(b));
    let order = stable_order(task_ids(a));
    lemma_stable_order_exists(task_ids(a));
    assert forall|p: int| 0 <= p < first.tasks().len() implies same_but_dates(
        #[trigger] first.tasks()[p],
        second.tasks()[p],
    ) by {
        assert(same_but_dates(a[order[p]], b[order[p]]));
    }
}

} // verus!
