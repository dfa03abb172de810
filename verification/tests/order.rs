use mpp_rs::model::Task;
use mpp_rs::order::sort_tasks;

fn task(unique_id: i32, id: i32) -> Task {
    let mut task = Task::default();
    task.unique_id = unique_id;
    task.id = id;
    task
}

#[test]
fn tasks_are_sorted_by_id() {
    let mut tasks = vec![task(1, 5), task(2, -1), task(3, 0), task(4, i32::MIN)];
    sort_tasks(&mut tasks);
    let ids: Vec<i32> = tasks.iter().map(|t| t.id).collect();
    assert_eq!(ids, vec![i32::MIN, -1, 0, 5]);
    let unique_ids: Vec<i32> = tasks.iter().map(|t| t.unique_id).collect();
    assert_eq!(unique_ids, vec![4, 2, 3, 1]);
}

#[test]
fn tasks_with_equal_ids_keep_their_order() {
    let mut tasks: Vec<Task> = (0..60).map(|i| task(i, (60 - i) % 3)).collect();
    sort_tasks(&mut tasks);
    for pair in tasks.windows(2) {
        assert!(pair[0].id < pair[1].id
            || (pair[0].id == pair[1].id && pair[0].unique_id < pair[1].unique_id));
    }
    assert_eq!(tasks.len(), 60);
}

#[test]
fn sorting_nothing() {
    let mut tasks: Vec<Task> = Vec::new();
    sort_tasks(&mut tasks);
    assert!(tasks.is_empty());
}
