//! The stable order of a sequence of tasks by their ids.
use crate::model::{Task, TaskView};
use vstd::prelude::*;

verus! {

/// Whether index `a` comes before index `b`: by the ids, and by the indices where these are equal.
pub open spec fn comes_before(ids: Seq<i32>, a: int, b: int) -> bool {
    ids[a] < ids[b] || (ids[a] == ids[b] && a < b)
}

/// Whether `order` lists all indices of `ids` in ascending order of the ids, and those with equal
/// ids in ascending order of the indices.
pub open spec fn is_stable_order(ids: Seq<i32>, order: Seq<int>) -> bool {
    &&& order.len() == ids.len()
    &&& forall|i: int| 0 <= i < order.len() ==> 0 <= #[trigger] order[i] < ids.len()
    &&& forall|k: int| 0 <= k < ids.len() ==> #[trigger] order.contains(k)
    &&& forall|i: int, j: int|
        0 <= i < j < order.len() ==> comes_before(ids, #[trigger] order[i], #[trigger] order[j])
}

/// The order in which the indices of `ids` are listed.
pub open spec fn stable_order(ids: Seq<i32>) -> Seq<int> {
    choose|order: Seq<int>| is_stable_order(ids, order)
}

/// The ids of a sequence of tasks.
pub open spec fn task_ids(tasks: Seq<TaskView>) -> Seq<i32> {
    tasks.map_values(|task: TaskView| task.id)
}

/// The tasks in ascending order of their ids, those with equal ids as they were.
pub open spec fn sorted_by_id(tasks: Seq<TaskView>) -> Seq<TaskView> {
    stable_order(task_ids(tasks)).map_values(|k: int| tasks[k])
}

/// The ids by which tasks are sorted.
pub open spec fn key_ids(tasks: Seq<Task>) -> Seq<i32> {
    tasks.map_values(|task: Task| task.id)
}

/// `slice::sort_by_key` with the id as the key, a stable sort: the same tasks in ascending order of
/// their ids, those with equal ids in the order they had.
#[verifier::external_body]
fn sort_by_id_key(tasks: &mut Vec<Task>)
    ensures
        exists|order: Seq<int>| #[trigger]
            is_stable_order(key_ids(old(tasks)@), order) && final(tasks)@ == order.map_values(
                |k: int| old(tasks)@[k],
            ),
{
    tasks.sort_by_key(|task| task.id);
}

/// Sorts tasks by their ids; tasks with equal ids stay in the order they had.
pub fn sort_tasks(tasks: &mut Vec<Task>)
    ensures
        final(tasks)@.map_values(|task: Task| task@) == sorted_by_id(
            old(tasks)@.map_values(|task: Task| task@),
        ),
{
    let ghost before = tasks@;
    sort_by_id_key(tasks);
    proof {
        let ids = key_ids(before);
        let views = before.map_values(|task: Task| task@);
        assert(ids =~= task_ids(views));
        let order = choose|order: Seq<int>| #[trigger]
            is_stable_order(ids, order) && tasks@ == order.map_values(|k: int| before[k]);
        lemma_stable_order_unique(ids, order, stable_order(ids));
        assert(tasks@.map_values(|task: Task| task@) =~= sorted_by_id(views));
    }
}

/// There is only one stable order.
pub proof fn lemma_stable_order_unique(ids: Seq<i32>, first: Seq<int>, second: Seq<int>)
    requires
        is_stable_order(ids, first),
        is_stable_order(ids, second),
    ensures
        first == second,
{
    assert forall|i: int| 0 <= i < first.len() implies first[i] == second[i] by {
        lemma_same_until(ids, first, second, i);
    }
    assert(first =~= second);
}

proof fn lemma_same_until(ids: Seq<i32>, first: Seq<int>, second: Seq<int>, i: int)
    requires
        is_stable_order(ids, first),
        is_stable_order(ids, second),
        0 <= i < first.len(),
    ensures
        first[i] == second[i],
    decreases i,
{
    assert forall|j: int| 0 <= j < i implies first[j] == second[j] by {
        lemma_same_until(ids, first, second, j);
    }
    if first[i] != second[i] {
        assert(second.contains(first[i]));
        assert(first.contains(second[i]));
        let j = choose|j: int| 0 <= j < second.len() && second[j] == first[i];
        let k = choose|k: int| 0 <= k < first.len() && first[k] == second[i];
        if j < i {
            assert(first[j] == first[i]);
            assert(comes_before(ids, first[j], first[i]));
        }
        if k < i {
            assert(second[k] == second[i]);
            assert(comes_before(ids, second[k], second[i]));
        }
        assert(comes_before(ids, second[i], second[j]));
        assert(comes_before(ids, first[i], first[k]));
    }
}

/// Every sequence of ids has a stable order.
pub proof fn lemma_stable_order_exists(ids: Seq<i32>)
    ensures
        is_stable_order(ids, stable_order(ids)),
{
    let order = lemma_build_order(ids);
    assert(is_stable_order(ids, order));
}

proof fn lemma_build_order(ids: Seq<i32>) -> (order: Seq<int>)
    ensures
        is_stable_order(ids, order),
    decreases ids.len(),
{
    if ids.len() == 0 {
        Seq::empty()
    } else {
        let fewer = ids.drop_last();
        let shorter = lemma_build_order(fewer);
        let last = ids.len() - 1;
        let place = lemma_place(ids, shorter, shorter.len() as int);
        let order = shorter.insert(place, last);
        assert forall|k: int| 0 <= k < ids.len() implies #[trigger] order.contains(k) by {
            if k == last {
                assert(order[place] == k);
            } else {
                assert(shorter.contains(k));
                let i = choose|i: int| 0 <= i < shorter.len() && shorter[i] == k;
                if i < place {
                    assert(order[i] == k);
                } else {
                    assert(order[i + 1] == k);
                }
            }
        }
        assert forall|i: int, j: int| 0 <= i < j < order.len() implies comes_before(
            ids,
            #[trigger] order[i],
            #[trigger] order[j],
        ) by {
            if i != place && j != place {
                let a = if i < place {
                    i
                } else {
                    i - 1
                };
                let b = if j < place {
                    j
                } else {
                    j - 1
                };
                assert(comes_before(fewer, shorter[a], shorter[b]));
            } else if i == place {
                assert(ids[shorter[j - 1]] > ids[last]);
            } else {
                assert(ids[shorter[i]] <= ids[last]);
            }
        }
        order
    }
}

/// Where the last index goes: behind all indices whose ids are not greater.
proof fn lemma_place(ids: Seq<i32>, shorter: Seq<int>, end: int) -> (place: int)
    requires
        ids.len() > 0,
        is_stable_order(ids.drop_last(), shorter),
        0 <= end <= shorter.len(),
        forall|i: int| end <= i < shorter.len() ==> ids[#[trigger] shorter[i]] > ids.last(),
    ensures
        0 <= place <= shorter.len(),
        forall|i: int| 0 <= i < place ==> ids[#[trigger] shorter[i]] <= ids.last(),
        forall|i: int| place <= i < shorter.len() ==> ids[#[trigger] shorter[i]] > ids.last(),
    decreases end,
{
    if end > 0 && ids[shorter[end - 1]] > ids.last() {
        lemma_place(ids, shorter, end - 1)
    } else {
        assert forall|i: int| 0 <= i < end implies ids[#[trigger] shorter[i]] <= ids.last() by {
            if i < end - 1 {
                assert(comes_before(ids.drop_last(), shorter[i], shorter[end - 1]));
            }
        }
        end
    }
}

/// Sorting keeps every task, and puts the ids in ascending order.
pub proof fn lemma_sorted_by_id(tasks: Seq<TaskView>)
    ensures
        ({
            let sorted = sorted_by_id(tasks);
            &&& sorted.len() == tasks.len()
            &&& forall|i: int, j: int| 0 <= i <= j < sorted.len() ==> sorted[i].id <= sorted[j].id
            &&& forall|task: TaskView| #[trigger]
                sorted.contains(task) <==> tasks.contains(task)
        }),
{
    let ids = task_ids(tasks);
    let order = stable_order(ids);
    let sorted = sorted_by_id(tasks);
    lemma_stable_order_exists(ids);
    assert forall|i: int, j: int| 0 <= i <= j < sorted.len() implies sorted[i].id <= sorted[j].id by {
        if i < j {
            assert(comes_before(ids, order[i], order[j]));
        }
    }
    assert forall|task: TaskView| #[trigger] sorted.contains(task) <==> tasks.contains(task) by {
        if sorted.contains(task) {
            let i = choose|i: int| 0 <= i < sorted.len() && sorted[i] == task;
            assert(tasks[order[i]] == task);
        }
        if tasks.contains(task) {
            let k = choose|k: int| 0 <= k < tasks.len() && tasks[k] == task;
            assert(order.contains(k));
            let i = choose|i: int| 0 <= i < order.len() && order[i] == k;
            assert(sorted[i] == task);
        }
    }
}

/// Where each sorted task comes from: a place of its own, and where ids are equal the places ascend.
pub proof fn lemma_sort_stable(tasks: Seq<TaskView>) -> (places: Seq<int>)
    ensures
        places.len() == tasks.len(),
        sorted_by_id(tasks).len() == tasks.len(),
        forall|p: int|
            0 <= p < places.len() ==> 0 <= #[trigger] places[p] < tasks.len() && sorted_by_id(
                tasks,
            )[p] == tasks[places[p]],
        forall|i: int| 0 <= i < tasks.len() ==> #[trigger] places.contains(i),
        forall|p: int, q: int|
            0 <= p < q < places.len() ==> {
                ||| tasks[#[trigger] places[p]].id < tasks[#[trigger] places[q]].id
                ||| tasks[places[p]].id == tasks[places[q]].id && places[p] < places[q]
            },
{
    let ids = task_ids(tasks);
    lemma_stable_order_exists(ids);
    let places = stable_order(ids);
    assert forall|p: int, q: int| 0 <= p < q < places.len() implies {
        ||| tasks[#[trigger] places[p]].id < tasks[#[trigger] places[q]].id
        ||| tasks[places[p]].id == tasks[places[q]].id && places[p] < places[q]
    } by {
        assert(comes_before(ids, places[p], places[q]));
    }
    places
}

} // verus!
