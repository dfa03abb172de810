use mpp_rs::calendar::Timestamp;
use mpp_rs::dates::{project_date_window, timestamp_at};
use mpp_rs::fixed::{FixedData, FixedMeta};
use mpp_rs::model::{Project, Resource, Task};
use mpp_rs::mpp14::{assemble, TaskStreams};
use mpp_rs::tasks::{choose_id_offsets, name_hit_count, outline_level};
use mpp_rs::util::EPOCH_SECONDS;
use mpp_rs::var::{Var2Data, VarMeta};

const MAGIC: u32 = 0xFADF_ADBA;

/// A `FixedMeta` stream with records of a size, and the `FixedData` stream of the blocks.
fn fixed(size: usize, blocks: &[Vec<u8>]) -> (Vec<u8>, Vec<u8>) {
    let mut meta = Vec::new();
    meta.extend_from_slice(&MAGIC.to_le_bytes());
    meta.extend_from_slice(&[0u8; 4]);
    meta.extend_from_slice(&(blocks.len() as u32).to_le_bytes());
    meta.extend_from_slice(&[0u8; 4]);
    let mut data: Vec<u8> = Vec::new();
    for block in blocks {
        let mut record = vec![0u8; size];
        record[4..8].copy_from_slice(&(data.len() as u32).to_le_bytes());
        meta.extend_from_slice(&record);
        data.extend_from_slice(block);
    }
    (meta, data)
}

/// A `VarMeta` and a `Var2Data` stream with names.
fn names(entries: &[(i32, &str)]) -> (Vec<u8>, Vec<u8>) {
    let mut meta = Vec::new();
    meta.extend_from_slice(&MAGIC.to_le_bytes());
    meta.extend_from_slice(&[0u8; 4]);
    meta.extend_from_slice(&(entries.len() as u32).to_le_bytes());
    meta.extend_from_slice(&[0u8; 12]);
    let mut data: Vec<u8> = Vec::new();
    for (unique_id, name) in entries {
        meta.extend_from_slice(&unique_id.to_le_bytes());
        meta.extend_from_slice(&(data.len() as u32).to_le_bytes());
        meta.extend_from_slice(&14u16.to_le_bytes());
        meta.extend_from_slice(&[0u8; 2]);
        let mut text: Vec<u8> = Vec::new();
        for unit in name.encode_utf16() {
            text.extend_from_slice(&unit.to_le_bytes());
        }
        text.extend_from_slice(&[0u8; 2]);
        data.extend_from_slice(&(text.len() as u32).to_le_bytes());
        data.extend_from_slice(&text);
    }
    (meta, data)
}

fn put_i32(block: &mut [u8], offset: usize, value: i32) {
    block[offset..offset + 4].copy_from_slice(&value.to_le_bytes());
}

fn put_u16(block: &mut [u8], offset: usize, value: u16) {
    block[offset..offset + 2].copy_from_slice(&value.to_le_bytes());
}

fn put_stamp(block: &mut [u8], offset: usize, time: u16, days: u16) {
    put_u16(block, offset, time);
    put_u16(block, offset + 2, days);
}

/// A first block in the default layout.
fn block(unique_id: i32, id: i32) -> Vec<u8> {
    let mut block = vec![0u8; 200];
    put_i32(&mut block, 0, unique_id);
    put_i32(&mut block, 4, id);
    block
}

fn streams(entries: &[(i32, &str)], blocks: &[Vec<u8>]) -> TaskStreams {
    let (var_meta, var2_data) = names(entries);
    let (fixed_meta, fixed_data) = fixed(47, blocks);
    TaskStreams {
        var_meta: Ok(var_meta),
        var2_data: Ok(var2_data),
        fixed_meta: Ok(fixed_meta),
        fixed_data: Ok(fixed_data),
        fixed2_meta: Err("no second blocks".to_string()),
        fixed2_data: Err("no second blocks".to_string()),
    }
}

fn with_second(mut streams: TaskStreams, size: usize, blocks: &[Vec<u8>]) -> TaskStreams {
    let (meta, data) = fixed(size, blocks);
    streams.fixed2_meta = Ok(meta);
    streams.fixed2_data = Ok(data);
    streams
}

fn tasks(streams: TaskStreams) -> Vec<Task> {
    assemble(streams).expect("streams make a project").tasks
}

fn tables(entries: &[(i32, &str)], blocks: &[Vec<u8>]) -> (FixedData, VarMeta, Var2Data) {
    let (var_meta, var2_data) = names(entries);
    let (fixed_meta, fixed_data) = fixed(47, blocks);
    let meta = FixedMeta::parse(&fixed_meta, 47).unwrap();
    let index = VarMeta::parse(&var_meta).unwrap();
    let values = Var2Data::parse(&index, &var2_data);
    (FixedData::parse(&meta, &fixed_data), index, values)
}

fn items(blocks: &[Vec<u8>]) -> FixedData {
    let (fixed_meta, fixed_data) = fixed(92, blocks);
    FixedData::parse(&FixedMeta::parse(&fixed_meta, 92).unwrap(), &fixed_data)
}

#[test]
fn name_hits_are_counted() {
    let blocks = [block(7, 8), block(8, 7), block(9, 7), vec![7u8; 16], vec![7u8; 3]];
    let (data, index, values) = tables(&[(7, "a"), (8, "b"), (9, "")], &blocks);
    assert_eq!(name_hit_count(&data, &index, &values, 0), 2);
    assert_eq!(name_hit_count(&data, &index, &values, 4), 3);
    assert_eq!(name_hit_count(&data, &index, &values, 197), 0);
    assert_eq!(choose_id_offsets(&data, &index, &values), (4, 0));
}

#[test]
fn default_id_layout_wins_a_tie() {
    let (data, index, values) = tables(&[(1, "a"), (2, "b")], &[block(1, 2)]);
    assert_eq!(name_hit_count(&data, &index, &values, 0), 1);
    assert_eq!(name_hit_count(&data, &index, &values, 4), 1);
    assert_eq!(choose_id_offsets(&data, &index, &values), (0, 4));
}

#[test]
fn outline_level_places() {
    let mut b = vec![0u8; 180];
    assert_eq!(outline_level(&b), 0);
    b[172] = 20;
    assert_eq!(outline_level(&b), 20);
    b[172] = 21;
    assert_eq!(outline_level(&b), 0);
    b[172] = 3;
    put_u16(&mut b, 40, 500);
    assert_eq!(outline_level(&b), 500);
    assert_eq!(outline_level(&b[0..41]), 0);
    assert_eq!(outline_level(&[]), 0);
}

#[test]
fn window_spans_a_day_around_all_dates() {
    let mut first = vec![0u8; 64];
    put_stamp(&mut first, 50, 480, 366);
    let mut second = vec![0u8; 64];
    put_stamp(&mut second, 46, 0, 300);
    put_stamp(&mut second, 54, 10, 400);
    let data = items(&[first, vec![1u8; 10], second]);
    let day = 86_400;
    assert_eq!(
        project_date_window(Some(&data)),
        Some((
            Timestamp { seconds: EPOCH_SECONDS + 299 * day },
            Timestamp { seconds: EPOCH_SECONDS + 401 * day + 60 },
        ))
    );
}

#[test]
fn no_window_without_dates() {
    assert_eq!(project_date_window(None), None);
    assert_eq!(project_date_window(Some(&items(&[]))), None);
    assert_eq!(project_date_window(Some(&items(&[vec![0u8; 64], vec![1u8; 20]]))), None);
}

#[test]
fn dates_outside_the_window_are_none() {
    let mut b = vec![0u8; 8];
    put_stamp(&mut b, 2, 0, 366);
    let at = |seconds: i64| Timestamp { seconds: EPOCH_SECONDS + 366 * 86_400 + seconds };
    let read = |from: i64, to: i64| timestamp_at(Some(&b), 2, Some((at(from), at(to))));
    assert_eq!(timestamp_at(Some(&b), 2, None).as_deref(), Some("1984-12-31T00:00:00"));
    assert_eq!(read(0, 0).as_deref(), Some("1984-12-31T00:00:00"));
    assert_eq!(read(1, 5), None);
    assert_eq!(read(-5, -1), None);
    assert_eq!(timestamp_at(Some(&b), 5, None), None);
    assert_eq!(timestamp_at(None, 2, None), None);
}

#[test]
fn tasks_come_in_the_order_of_their_ids() {
    let blocks = [block(5, 3), block(6, 1), block(7, 2), block(8, 1)];
    let made = tasks(streams(&[(5, "e"), (6, "f"), (7, "g"), (8, "h")], &blocks));
    let order: Vec<(i32, i32)> = made.iter().map(|t| (t.id, t.unique_id)).collect();
    assert_eq!(order, vec![(1, 6), (1, 8), (2, 7), (3, 5)]);
    assert_eq!(made[0].name, "f");
}

#[test]
fn first_block_of_a_unique_id_wins() {
    let mut again = block(5, 9);
    put_u16(&mut again, 90, 77);
    let made = tasks(streams(&[(5, "e"), (6, "f")], &[block(5, 3), again, block(6, 1)]));
    assert_eq!(made.len(), 2);
    assert_eq!((made[1].unique_id, made[1].id, made[1].percent_complete), (5, 3, 0));
}

#[test]
fn placeholders_are_no_tasks() {
    let blocks = [block(5, 3)[0..16].to_vec(), vec![9u8; 3], block(6, 1), Vec::new()];
    let made = tasks(streams(&[(5, "e"), (6, "f")], &blocks));
    assert_eq!(made.len(), 1);
    assert_eq!(made[0].unique_id, 6);
}

#[test]
fn short_block_has_no_id() {
    let made = tasks(streams(&[], &[vec![2, 0, 0, 0, 1]]));
    assert_eq!((made[0].unique_id, made[0].id), (2, -1));
    assert_eq!(made[0].name, "");
    assert_eq!(made[0].outline_level, 0);
    assert_eq!(made[0].percent_complete, 0);
    assert_eq!(made[0].scheduled_start, None);
}

#[test]
fn alternative_id_layout() {
    let made = tasks(streams(&[(110, "Alt")], &[block(1, 110)]));
    assert_eq!((made[0].unique_id, made[0].id), (110, 1));
    assert_eq!(made[0].name, "Alt");
}

#[test]
fn all_fields_of_a_task_are_read_back() {
    let mut b = block(42, 7);
    put_u16(&mut b, 40, 3);
    put_u16(&mut b, 90, 65);
    for (place, offset) in [8, 12, 64, 68, 72, 76, 80, 98, 106, 110, 122].iter().enumerate() {
        put_stamp(&mut b, *offset, 0, 101 + place as u16);
    }
    let made = tasks(streams(&[(42, "Größe 😀")], &[b]));
    let task = &made[0];
    assert_eq!((task.unique_id, task.id), (42, 7));
    assert_eq!(task.name, "Größe 😀");
    assert_eq!(task.outline_level, 3);
    assert_eq!(task.percent_complete, 65);
    // Day 101 is 1984-04-10.
    assert_eq!(task.early_finish.as_deref(), Some("1984-04-10T00:00:00"));
    assert_eq!(task.late_start.as_deref(), Some("1984-04-11T00:00:00"));
    assert_eq!(task.scheduled_start.as_deref(), Some("1984-04-12T00:00:00"));
    assert_eq!(task.scheduled_finish.as_deref(), Some("1984-04-13T00:00:00"));
    assert_eq!(task.actual_start.as_deref(), Some("1984-04-14T00:00:00"));
    assert_eq!(task.actual_finish.as_deref(), Some("1984-04-15T00:00:00"));
    assert_eq!(task.constraint_date.as_deref(), Some("1984-04-16T00:00:00"));
    assert_eq!(task.created.as_deref(), Some("1984-04-17T00:00:00"));
    assert_eq!(task.early_start.as_deref(), Some("1984-04-18T00:00:00"));
    assert_eq!(task.late_finish.as_deref(), Some("1984-04-19T00:00:00"));
    assert_eq!(task.deadline.as_deref(), Some("1984-04-20T00:00:00"));
    // Without second blocks, start and finish are the scheduled ones.
    assert_eq!(task.start, task.scheduled_start);
    assert_eq!(task.finish, task.scheduled_finish);
    assert_eq!(task.parent_unique_id, None);
    assert_eq!((task.baseline_start.clone(), task.baseline_finish.clone()), (None, None));
    assert_eq!((task.work_hours, task.cost, task.fixed_cost), (None, None, None));
    assert!(task.resource_names.is_empty());
}

#[test]
fn second_blocks_give_start_and_finish() {
    let mut b = block(1, 1);
    put_stamp(&mut b, 64, 0, 365);
    put_stamp(&mut b, 68, 0, 371);
    put_stamp(&mut b, 72, 0, 1000);
    let mut second = vec![0u8; 64];
    put_stamp(&mut second, 46, 0, 367);
    put_stamp(&mut second, 50, 480, 366);
    put_stamp(&mut second, 54, 0, 370);
    let made = tasks(with_second(streams(&[(1, "a")], &[b]), 92, &[second]));
    let task = &made[0];
    assert_eq!(task.start.as_deref(), Some("1984-12-31T00:48:00"));
    assert_eq!(task.finish.as_deref(), Some("1985-01-04T00:00:00"));
    // A day before the earliest date at 00:48 is later than the scheduled start.
    assert_eq!(task.scheduled_start, None);
    assert_eq!(task.scheduled_finish.as_deref(), Some("1985-01-05T00:00:00"));
    assert_eq!(task.actual_start, None);
}

#[test]
fn alternative_start_and_scheduled_finish() {
    let mut b = block(1, 1);
    put_stamp(&mut b, 64, 0, 366);
    put_stamp(&mut b, 68, 0, 367);
    let mut second = vec![0u8; 64];
    put_stamp(&mut second, 46, 0, 367);
    let made = tasks(with_second(streams(&[(1, "a")], &[b]), 94, &[second]));
    assert_eq!(made[0].start.as_deref(), Some("1985-01-01T00:00:00"));
    assert_eq!(made[0].finish.as_deref(), Some("1985-01-01T00:00:00"));
    assert_eq!(made[0].scheduled_start.as_deref(), Some("1984-12-31T00:00:00"));
}

#[test]
fn second_blocks_belong_to_first_blocks_by_place() {
    let mut first = vec![0u8; 64];
    put_stamp(&mut first, 50, 0, 366);
    let mut second = vec![0u8; 64];
    put_stamp(&mut second, 50, 0, 367);
    let blocks = [block(1, 2), block(2, 1), block(3, 3)];
    let entries = [(1, "a"), (2, "b"), (3, "c")];
    let made = tasks(with_second(streams(&entries, &blocks), 96, &[first, second, vec![0u8; 64]]));
    assert_eq!(made[0].start.as_deref(), Some("1985-01-01T00:00:00"));
    assert_eq!(made[1].start.as_deref(), Some("1984-12-31T00:00:00"));
    assert_eq!(made[2].start, None);
}

#[test]
fn second_blocks_decide_on_dates_alone() {
    let entries = [(1, "a"), (2, "b")];
    let mut first = block(1, 9);
    put_u16(&mut first, 90, 30);
    put_u16(&mut first, 40, 2);
    let blocks = [first, block(2, 4), block(1, 1)];
    let mut second = vec![0u8; 64];
    put_stamp(&mut second, 50, 0, 366);
    let without = tasks(streams(&entries, &blocks));
    let with = tasks(with_second(streams(&entries, &blocks), 92, &[second]));
    assert_eq!(without.len(), with.len());
    for (a, b) in without.iter().zip(with.iter()) {
        assert_eq!((a.unique_id, a.id, &a.name), (b.unique_id, b.id, &b.name));
        assert_eq!((a.outline_level, a.percent_complete), (b.outline_level, b.percent_complete));
    }
    assert_eq!((without[1].start.clone(), with[1].start.is_some()), (None, true));
}

#[test]
fn one_missing_second_stream_drops_the_other() {
    let mut second = vec![0u8; 64];
    put_stamp(&mut second, 50, 0, 366);
    let mut made = with_second(streams(&[(1, "a")], &[block(1, 1)]), 92, &[second]);
    made.fixed2_data = Err("gone".to_string());
    assert_eq!(tasks(made)[0].start, None);
}

#[test]
fn the_first_error_is_reported() {
    let error = |change: fn(&mut TaskStreams)| {
        let mut made = streams(&[(1, "a")], &[block(1, 1)]);
        change(&mut made);
        assemble(made).err()
    };
    assert_eq!(error(|_| {}), None);
    assert_eq!(error(|s| s.var_meta = Err("one".to_string())).as_deref(), Some("one"));
    assert_eq!(error(|s| s.var2_data = Err("two".to_string())).as_deref(), Some("two"));
    assert_eq!(error(|s| s.fixed_meta = Err("three".to_string())).as_deref(), Some("three"));
    assert_eq!(error(|s| s.fixed_data = Err("four".to_string())).as_deref(), Some("four"));
    let both = |s: &mut TaskStreams| {
        s.var_meta = Ok(vec![1]);
        s.var2_data = Err("two".to_string());
    };
    assert_eq!(error(both).as_deref(), Some("VarMeta: truncated header"));
    let later = |s: &mut TaskStreams| {
        s.fixed_meta = Ok(vec![9, 0, 0, 0]);
        s.fixed_data = Err("four".to_string());
    };
    assert_eq!(error(later).as_deref(), Some("FixedMeta: bad magic 0x00000009"));
}

#[test]
fn project_without_tasks() {
    let project = assemble(streams(&[], &[])).expect("streams make a project");
    assert_eq!(project.format, "MSProject.MPP14");
    assert!(project.tasks.is_empty());
    assert!(project.resources.is_empty());
}

#[test]
fn default_values_are_empty() {
    let project = Project::default();
    assert_eq!(project.format, "");
    assert!(project.tasks.is_empty() && project.resources.is_empty());
    let resource = Resource::default();
    assert_eq!((resource.unique_id, resource.id, resource.name.as_str()), (0, 0, ""));
    let task = Task::default();
    assert_eq!((task.unique_id, task.id, task.name.as_str()), (0, 0, ""));
    assert_eq!((task.start, task.cost, task.percent_complete), (None, None, 0));
}
