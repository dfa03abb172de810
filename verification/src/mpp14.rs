//! The reader for MPP14, the format of Microsoft Project 2010 and later.
//!
//! The storage `/   114/TBkndTask` of the container holds
//! - `VarMeta` and `Var2Data`: the variable-length fields, such as the name of a task;
//! - `FixedMeta` and `FixedData`: one block per task with its ids, its outline level, its dates;
//! - `Fixed2Meta` and `Fixed2Data`: a second block per task with its start and finish. Some files
//!   have none.
use crate::container::{
    container_bytes, has_storage, is_container, is_portable, is_reading, is_storage, is_whole,
    lemma_whole_stream_read, open_container, open_failure, read_stream, reading_view, says_missing, says_passing,
    stream_at,
};
use crate::fixed::{
    chosen_size, fixed_items, fixed_meta_outcome, is_filled, is_not_exceeded, lemma_candidate_choice,
    lemma_fixed_items_roundtrip, lemma_fixed_meta_roundtrip, FixedData, FixedMeta, FIXED_META_MAGIC,
};
use crate::model::{Project, ProjectView};
use crate::tasks::{
    lemma_second_blocks_decide_dates, read_tasks, same_but_dates, tables_of, TaskTables,
};
use crate::text::join2;
use crate::util::u32_bytes;
use crate::var::{
    lemma_var_meta_roundtrip, stands_at, var_index, var_meta_outcome, var_record_bytes, var_values,
    Var2Data, VarIndex, VarMeta, VarRecord, MAGIC,
};
use std::io::Cursor;
use vstd::prelude::*;

verus! {

/// The size of a record of the `FixedMeta` stream.
pub const TASK_FIXEDMETA_ITEM_SIZE: usize = 47;

// The storage of the project, by the version of the format.
pub const PROJECT_DIR_14: &'static str = "/   114";

pub const PROJECT_DIR_12: &'static str = "/   112";

pub const PROJECT_DIR_9: &'static str = "/   19";

// The streams of the task storage.
pub const VAR_META_PATH: &'static str = "/   114/TBkndTask/VarMeta";

pub const VAR2_DATA_PATH: &'static str = "/   114/TBkndTask/Var2Data";

pub const FIXED_META_PATH: &'static str = "/   114/TBkndTask/FixedMeta";

pub const FIXED_DATA_PATH: &'static str = "/   114/TBkndTask/FixedData";

pub const FIXED2_META_PATH: &'static str = "/   114/TBkndTask/Fixed2Meta";

pub const FIXED2_DATA_PATH: &'static str = "/   114/TBkndTask/Fixed2Data";

/// The sizes that a record of the `Fixed2Meta` stream can have.
pub open spec fn fixed2_candidates() -> Seq<usize> {
    seq![92, 93, 94, 95, 96]
}

/// The readings of the streams of the task storage: for each its bytes, or why it cannot be had.
pub struct TaskStreams {
    pub var_meta: Result<Vec<u8>, String>,
    pub var2_data: Result<Vec<u8>, String>,
    pub fixed_meta: Result<Vec<u8>, String>,
    pub fixed_data: Result<Vec<u8>, String>,
    pub fixed2_meta: Result<Vec<u8>, String>,
    pub fixed2_data: Result<Vec<u8>, String>,
}

/// What `TaskStreams` says.
pub struct TaskStreamsView {
    pub var_meta: Result<Seq<u8>, Seq<char>>,
    pub var2_data: Result<Seq<u8>, Seq<char>>,
    pub fixed_meta: Result<Seq<u8>, Seq<char>>,
    pub fixed_data: Result<Seq<u8>, Seq<char>>,
    pub fixed2_meta: Result<Seq<u8>, Seq<char>>,
    pub fixed2_data: Result<Seq<u8>, Seq<char>>,
}

impl View for TaskStreams {
    type V = TaskStreamsView;

    open spec fn view(&self) -> TaskStreamsView {
        TaskStreamsView {
            var_meta: reading_view(self.var_meta),
            var2_data: reading_view(self.var2_data),
            fixed_meta: reading_view(self.fixed_meta),
            fixed_data: reading_view(self.fixed_data),
            fixed2_meta: reading_view(self.fixed2_meta),
            fixed2_data: reading_view(self.fixed2_data),
        }
    }
}

/// The second blocks: none, if one of their two streams cannot be had or parsed.
pub open spec fn second_blocks_of(
    meta: Result<Seq<u8>, Seq<char>>,
    data: Result<Seq<u8>, Seq<char>>,
    expected_count: int,
) -> Option<Seq<Option<Seq<u8>>>> {
    match (meta, data) {
        (Ok(m), Ok(d)) => {
            let size = chosen_size(m, fixed2_candidates(), expected_count);
            match fixed_meta_outcome(m, size as int) {
                Ok(records) => Some(fixed_items(records, d)),
                Err(_) => None,
            }
        },
        _ => None,
    }
}

/// The tables in the streams of the task storage, or the first error on the way to them: that the
/// stream of the variable-length fields or of the first blocks cannot be had, or what is wrong with
/// it.
pub open spec fn tables_outcome(streams: TaskStreamsView) -> Result<TaskTables, Seq<char>> {
    match streams.var_meta {
        Err(message) => Err(message),
        Ok(var_meta) => match var_meta_outcome(var_meta) {
            Err(message) => Err(message),
            Ok(index) => match streams.var2_data {
                Err(message) => Err(message),
                Ok(var2_data) => match streams.fixed_meta {
                    Err(message) => Err(message),
                    Ok(fixed_meta) => match fixed_meta_outcome(
                        fixed_meta,
                        TASK_FIXEDMETA_ITEM_SIZE as int,
                    ) {
                        Err(message) => Err(message),
                        Ok(records) => match streams.fixed_data {
                            Err(message) => Err(message),
                            Ok(fixed_data) => Ok(
                                TaskTables {
                                    blocks: fixed_items(records, fixed_data),
                                    second_blocks: second_blocks_of(
                                        streams.fixed2_meta,
                                        streams.fixed2_data,
                                        records.len() as int,
                                    ),
                                    index,
                                    values: var_values(index.offsets, var2_data),
                                },
                            ),
                        },
                    },
                },
            },
        },
    }
}

/// The project in the streams of the task storage, or the first error on the way to it.
pub open spec fn project_outcome(streams: TaskStreamsView) -> Result<ProjectView, Seq<char>> {
    match tables_outcome(streams) {
        Ok(tables) => Ok(
            ProjectView {
                format: "MSProject.MPP14"@,
                resources: Seq::empty(),
                tasks: tables.tasks(),
            },
        ),
        Err(message) => Err(message),
    }
}

/// What a result says.
pub open spec fn result_view(result: Result<Project, String>) -> Result<ProjectView, Seq<char>> {
    match result {
        Ok(project) => Ok(project@),
        Err(message) => Err(message@),
    }
}

/// Parses the second blocks, if their streams can be had.
fn read_fixed2(
    meta: Result<Vec<u8>, String>,
    data: Result<Vec<u8>, String>,
    expected_count: usize,
) -> (fixed2: Option<FixedData>)
    ensures
        (match fixed2 {
            Some(items) => Some(items@),
            None => None,
        }) == second_blocks_of(reading_view(meta), reading_view(data), expected_count as int),
{
    let (meta_bytes, data_bytes) = match (meta, data) {
        (Ok(meta_bytes), Ok(data_bytes)) => (meta_bytes, data_bytes),
        _ => return None,
    };
    let candidates: [usize; 5] = [92, 93, 94, 95, 96];
    assert(candidates@ =~= fixed2_candidates());
    match FixedMeta::parse_with_candidates(
        meta_bytes.as_slice(),
        candidates.as_slice(),
        expected_count,
    ) {
        Ok(parsed) => Some(FixedData::parse(&parsed, data_bytes.as_slice())),
        Err(_) => None,
    }
}

/// Makes the project out of the streams of the task storage.
pub fn assemble(streams: TaskStreams) -> (project: Result<Project, String>)
    ensures
        result_view(project) == project_outcome(streams@),
{
    let var_meta = match streams.var_meta {
        Ok(bytes) => match VarMeta::parse(bytes.as_slice()) {
            Ok(var_meta) => var_meta,
            Err(message) => return Err(message),
        },
        Err(message) => return Err(message),
    };
    let var_data = match streams.var2_data {
        Ok(bytes) => Var2Data::parse(&var_meta, bytes.as_slice()),
        Err(message) => return Err(message),
    };
    let fixed_meta = match streams.fixed_meta {
        Ok(bytes) => match FixedMeta::parse(bytes.as_slice(), TASK_FIXEDMETA_ITEM_SIZE) {
            Ok(fixed_meta) => fixed_meta,
            Err(message) => return Err(message),
        },
        Err(message) => return Err(message),
    };
    let fixed_data = match streams.fixed_data {
        Ok(bytes) => FixedData::parse(&fixed_meta, bytes.as_slice()),
        Err(message) => return Err(message),
    };
    let count: usize = fixed_data.item_count();
    let fixed2 = read_fixed2(streams.fixed2_meta, streams.fixed2_data, count);
    let tasks = read_tasks(&fixed_data, &fixed2, &var_meta, &var_data);
    assert(tables_outcome(streams@) == Ok::<TaskTables, Seq<char>>(
        tables_of(fixed_data, fixed2, var_meta, var_data),
    ));
    let project = Project { format: "MSProject.MPP14".to_owned(), resources: Vec::new(), tasks };
    assert(project@.resources =~= Seq::empty());
    Ok(project)
}

/// A version of the MPP format.
#[derive(Clone, Copy, Debug, PartialEq, Eq, Structural)]
pub enum Format {
    Mpp14,
    Mpp12,
    Mpp9,
    Unknown,
}

impl Format {
    /// The name of the format.
    pub open spec fn text(self) -> Seq<char> {
        match self {
            Format::Mpp14 => "MSProject.MPP14"@,
            Format::Mpp12 => "MSProject.MPP12"@,
            Format::Mpp9 => "MSProject.MPP9"@,
            Format::Unknown => "unknown"@,
        }
    }

    /// Returns the name of the format.
    pub fn name(self) -> (name: &'static str)
        ensures
            name@ == self.text(),
    {
        match self {
            Format::Mpp14 => "MSProject.MPP14",
            Format::Mpp12 => "MSProject.MPP12",
            Format::Mpp9 => "MSProject.MPP9",
            Format::Unknown => "unknown",
        }
    }
}

/// The format of a container: that of the first of the numbered project storages, from the newest
/// on, that is there.
pub open spec fn format_of(bytes: Seq<u8>) -> Format {
    if has_storage(bytes, PROJECT_DIR_14@) {
        Format::Mpp14
    } else if has_storage(bytes, PROJECT_DIR_12@) {
        Format::Mpp12
    } else if has_storage(bytes, PROJECT_DIR_9@) {
        Format::Mpp9
    } else {
        Format::Unknown
    }
}

/// The paths in use mean the same on every system.
proof fn lemma_paths_portable()
    ensures
        is_portable(PROJECT_DIR_14@),
        is_portable(PROJECT_DIR_12@),
        is_portable(PROJECT_DIR_9@),
        is_portable(VAR_META_PATH@),
        is_portable(VAR2_DATA_PATH@),
        is_portable(FIXED_META_PATH@),
        is_portable(FIXED_DATA_PATH@),
        is_portable(FIXED2_META_PATH@),
        is_portable(FIXED2_DATA_PATH@),
{
    reveal_strlit("/   114");
    reveal_strlit("/   112");
    reveal_strlit("/   19");
    reveal_strlit("/   114/TBkndTask/VarMeta");
    reveal_strlit("/   114/TBkndTask/Var2Data");
    reveal_strlit("/   114/TBkndTask/FixedMeta");
    reveal_strlit("/   114/TBkndTask/FixedData");
    reveal_strlit("/   114/TBkndTask/Fixed2Meta");
    reveal_strlit("/   114/TBkndTask/Fixed2Data");
}

/// Detects the format of a container.
pub fn detect_format(file: &cfb::CompoundFile<Cursor<Vec<u8>>>) -> (format: Format)
    ensures
        format == format_of(container_bytes(*file)),
{
    proof {
        lemma_paths_portable();
    }
    if is_storage(file, PROJECT_DIR_14) {
        Format::Mpp14
    } else if is_storage(file, PROJECT_DIR_12) {
        Format::Mpp12
    } else if is_storage(file, PROJECT_DIR_9) {
        Format::Mpp9
    } else {
        Format::Unknown
    }
}

/// Whether these can be the readings of the streams of the task storage of a container.
pub open spec fn are_readings(streams: TaskStreamsView, bytes: Seq<u8>) -> bool {
    &&& is_reading(streams.var_meta, bytes, VAR_META_PATH@)
    &&& is_reading(streams.var2_data, bytes, VAR2_DATA_PATH@)
    &&& is_reading(streams.fixed_meta, bytes, FIXED_META_PATH@)
    &&& is_reading(streams.fixed_data, bytes, FIXED_DATA_PATH@)
    &&& is_reading(streams.fixed2_meta, bytes, FIXED2_META_PATH@)
    &&& is_reading(streams.fixed2_data, bytes, FIXED2_DATA_PATH@)
}

/// Reads the streams of the task storage.
pub fn read_streams(file: &mut cfb::CompoundFile<Cursor<Vec<u8>>>) -> (streams: TaskStreams)
    ensures
        container_bytes(*final(file)) == container_bytes(*old(file)),
        are_readings(streams@, container_bytes(*old(file))),
{
    proof {
        lemma_paths_portable();
    }
    let var_meta = read_stream(file, VAR_META_PATH);
    let var2_data = read_stream(file, VAR2_DATA_PATH);
    let fixed_meta = read_stream(file, FIXED_META_PATH);
    let fixed_data = read_stream(file, FIXED_DATA_PATH);
    let fixed2_meta = read_stream(file, FIXED2_META_PATH);
    let fixed2_data = read_stream(file, FIXED2_DATA_PATH);
    TaskStreams { var_meta, var2_data, fixed_meta, fixed_data, fixed2_meta, fixed2_data }
}

/// The message that says that these bytes are no container, and why.
pub open spec fn invalid_text(bytes: Seq<u8>) -> Seq<char> {
    "not a valid OLE/MPP container: "@ + open_failure(bytes)
}

/// The message that says that a format cannot be read.
pub open spec fn unsupported_text(format: Format) -> Seq<char> {
    "this MVP only reads MPP14 (Project 2010+); detected: "@ + format.text()
}

/// Parses an MPP file. A file that is no container, or one of another format, gives an error that
/// says so. Otherwise the streams of the task storage are read, and the result is the project in
/// them, or the first error on the way to it. A stream that is there and whole is read, unless for a
/// passing reason such as want of memory.
pub fn parse(bytes: &[u8]) -> (project: Result<Project, String>)
    ensures
        !is_container(bytes@) ==> result_view(project) == Err::<ProjectView, Seq<char>>(
            invalid_text(bytes@),
        ),
        is_container(bytes@) && format_of(bytes@) != Format::Mpp14 ==> result_view(project) == Err::<
            ProjectView,
            Seq<char>,
        >(unsupported_text(format_of(bytes@))),
        is_container(bytes@) && format_of(bytes@) == Format::Mpp14 ==> exists|
            streams: TaskStreamsView,
        | #[trigger]
            are_readings(streams, bytes@) && result_view(project) == project_outcome(streams),
{
    let mut file = match open_container(bytes) {
        Ok(file) => file,
        Err(reason) => {
            return Err(join2("not a valid OLE/MPP container: ", reason.as_str()));
        },
    };
    let format = detect_format(&file);
    if format != Format::Mpp14 {
        return Err(
            join2("this MVP only reads MPP14 (Project 2010+); detected: ", format.name()),
        );
    }
    let streams = read_streams(&mut file);
    assert(are_readings(streams@, bytes@));
    assemble(streams)
}

/// A file whose required streams are missing gives an error that names the first of them, unless an
/// earlier one has an error of its own.
pub proof fn lemma_missing_stream(streams: TaskStreamsView, bytes: Seq<u8>)
    requires
        are_readings(streams, bytes),
    ensures
        stream_at(bytes, VAR_META_PATH@) is None || stream_at(bytes, VAR2_DATA_PATH@) is None
            || stream_at(bytes, FIXED_META_PATH@) is None || stream_at(bytes, FIXED_DATA_PATH@)
            is None ==> project_outcome(streams) is Err,
        stream_at(bytes, VAR_META_PATH@) is None ==> (project_outcome(streams) matches Err(message)
            && says_missing(message, VAR_META_PATH@)),
        stream_at(bytes, VAR2_DATA_PATH@) is None && streams.var_meta is Ok && var_meta_outcome(
            streams.var_meta->Ok_0,
        ) is Ok ==> (project_outcome(streams) matches Err(message) && says_missing(
            message,
            VAR2_DATA_PATH@,
        )),
        stream_at(bytes, FIXED_META_PATH@) is None && streams.var_meta is Ok && var_meta_outcome(
            streams.var_meta->Ok_0,
        ) is Ok && streams.var2_data is Ok ==> (project_outcome(streams) matches Err(message)
            && says_missing(message, FIXED_META_PATH@)),
        stream_at(bytes, FIXED_DATA_PATH@) is None && streams.var_meta is Ok && var_meta_outcome(
            streams.var_meta->Ok_0,
        ) is Ok && streams.var2_data is Ok && streams.fixed_meta is Ok && fixed_meta_outcome(
            streams.fixed_meta->Ok_0,
            TASK_FIXEDMETA_ITEM_SIZE as int,
        ) is Ok ==> (project_outcome(streams) matches Err(message) && says_missing(
            message,
            FIXED_DATA_PATH@,
        )),
{
}

/// The streams of the second blocks are optional: they decide neither whether a file can be read, nor
/// what its error is, nor which tasks there are, nor anything of a task but its dates.
pub proof fn lemma_second_streams_optional(first: TaskStreamsView, second: TaskStreamsView)
    requires
        first.var_meta == second.var_meta,
        first.var2_data == second.var2_data,
        first.fixed_meta == second.fixed_meta,
        first.fixed_data == second.fixed_data,
    ensures
        match (project_outcome(first), project_outcome(second)) {
            (Ok(a), Ok(b)) => {
                &&& a.format == b.format
                &&& a.tasks.len() == b.tasks.len()
                &&& forall|p: int|
                    0 <= p < a.tasks.len() ==> same_but_dates(#[trigger] a.tasks[p], b.tasks[p])
            },
            (Err(a), Err(b)) => a == b,
            _ => false,
        },
{
    if let (Ok(a), Ok(b)) = (tables_outcome(first), tables_outcome(second)) {
        lemma_second_blocks_decide_dates(a, b);
    }
}

/// A file whose required streams are there, with whole chains of sectors, and well-formed is read:
/// from just those streams, or the error gives a passing reason. Where both streams of the second
/// blocks are there and whole, these are read from them, or one of the two readings gives a passing
/// reason; where one of the two is missing, there are none.
pub proof fn lemma_whole_file_read(streams: TaskStreamsView, bytes: Seq<u8>)
    requires
        are_readings(streams, bytes),
        stream_at(bytes, VAR_META_PATH@) is Some && is_whole(bytes, VAR_META_PATH@),
        stream_at(bytes, VAR2_DATA_PATH@) is Some && is_whole(bytes, VAR2_DATA_PATH@),
        stream_at(bytes, FIXED_META_PATH@) is Some && is_whole(bytes, FIXED_META_PATH@),
        stream_at(bytes, FIXED_DATA_PATH@) is Some && is_whole(bytes, FIXED_DATA_PATH@),
        var_meta_outcome(stream_at(bytes, VAR_META_PATH@)->0) is Ok,
        fixed_meta_outcome(
            stream_at(bytes, FIXED_META_PATH@)->0,
            TASK_FIXEDMETA_ITEM_SIZE as int,
        ) is Ok,
    ensures
        match tables_outcome(streams) {
            Ok(tables) => {
                let index = var_meta_outcome(stream_at(bytes, VAR_META_PATH@)->0)->Ok_0;
                let records = fixed_meta_outcome(
                    stream_at(bytes, FIXED_META_PATH@)->0,
                    TASK_FIXEDMETA_ITEM_SIZE as int,
                )->Ok_0;
                &&& tables.index == index
                &&& tables.values == var_values(
                    index.offsets,
                    stream_at(bytes, VAR2_DATA_PATH@)->0,
                )
                &&& tables.blocks == fixed_items(records, stream_at(bytes, FIXED_DATA_PATH@)->0)
                &&& stream_at(bytes, FIXED2_META_PATH@) is Some && is_whole(
                    bytes,
                    FIXED2_META_PATH@,
                ) && stream_at(bytes, FIXED2_DATA_PATH@) is Some && is_whole(
                    bytes,
                    FIXED2_DATA_PATH@,
                ) ==> {
                    ||| tables.second_blocks == second_blocks_of(
                        Ok(stream_at(bytes, FIXED2_META_PATH@)->0),
                        Ok(stream_at(bytes, FIXED2_DATA_PATH@)->0),
                        records.len() as int,
                    )
                    ||| (streams.fixed2_meta matches Err(message) && says_passing(
                        message,
                        FIXED2_META_PATH@,
                    ))
                    ||| (streams.fixed2_data matches Err(message) && says_passing(
                        message,
                        FIXED2_DATA_PATH@,
                    ))
                }
                &&& stream_at(bytes, FIXED2_META_PATH@) is None || stream_at(
                    bytes,
                    FIXED2_DATA_PATH@,
                ) is None ==> tables.second_blocks is None
            },
            Err(message) => {
                ||| says_passing(message, VAR_META_PATH@)
                ||| says_passing(message, VAR2_DATA_PATH@)
                ||| says_passing(message, FIXED_META_PATH@)
                ||| says_passing(message, FIXED_DATA_PATH@)
            },
        },
{
    lemma_whole_stream_read(streams.var_meta, bytes, VAR_META_PATH@);
    lemma_whole_stream_read(streams.var2_data, bytes, VAR2_DATA_PATH@);
    lemma_whole_stream_read(streams.fixed_meta, bytes, FIXED_META_PATH@);
    lemma_whole_stream_read(streams.fixed_data, bytes, FIXED_DATA_PATH@);
    if stream_at(bytes, FIXED2_META_PATH@) is Some && is_whole(bytes, FIXED2_META_PATH@) {
        lemma_whole_stream_read(streams.fixed2_meta, bytes, FIXED2_META_PATH@);
    }
    if stream_at(bytes, FIXED2_DATA_PATH@) is Some && is_whole(bytes, FIXED2_DATA_PATH@) {
        lemma_whole_stream_read(streams.fixed2_data, bytes, FIXED2_DATA_PATH@);
    }
}

/// What is written into the streams of the task storage is what is read from them: the records of the
/// variable-length fields, and the blocks of the tasks one after the other.
pub proof fn lemma_streams_roundtrip(
    streams: TaskStreamsView,
    var_records: Seq<VarRecord>,
    fixed_records: Seq<Seq<u8>>,
    starts: Seq<u32>,
    blocks: Seq<Seq<u8>>,
)
    requires
        streams.var_meta matches Ok(data) && {
            &&& var_records.len() <= u32::MAX
            &&& data.len() >= 24 + 12 * var_records.len()
            &&& stands_at(data, 0, u32_bytes(MAGIC)) || stands_at(data, 0, u32_bytes(0))
            &&& stands_at(data, 8, u32_bytes(var_records.len() as u32))
            &&& forall|i: int|
                0 <= i < var_records.len() ==> 0 <= (#[trigger] var_records[i]).type_key <= 0xFFFF
                    && stands_at(data, 24 + 12 * i, var_record_bytes(var_records[i]))
        },
        streams.var2_data is Ok,
        streams.fixed_meta matches Ok(data) && {
            &&& data.len() == 16 + 47 * fixed_records.len()
            &&& stands_at(data, 0, u32_bytes(FIXED_META_MAGIC))
            &&& forall|i: int|
                0 <= i < fixed_records.len() ==> (#[trigger] fixed_records[i]).len() == 47
                    && stands_at(data, 16 + 47 * i, fixed_records[i])
        },
        streams.fixed_data matches Ok(data) && {
            &&& fixed_records.len() == blocks.len()
            &&& starts.len() == blocks.len()
            &&& forall|i: int|
                0 <= i < blocks.len() ==> {
                    &&& (#[trigger] blocks[i]).len() > 0
                    &&& stands_at(data, starts[i] as int, blocks[i])
                    &&& stands_at(fixed_records[i], 4, u32_bytes(starts[i]))
                    &&& starts[i] + blocks[i].len() == (if i + 1 == blocks.len() {
                        data.len() as int
                    } else {
                        starts[i + 1] as int
                    })
                }
        },
    ensures
        tables_outcome(streams) matches Ok(tables) && {
            &&& tables.blocks == blocks.map_values(|block: Seq<u8>| Some(block))
            &&& tables.index == var_index(var_records)
            &&& tables.values == var_values(tables.index.offsets, streams.var2_data->Ok_0)
            &&& project_outcome(streams) == Ok::<ProjectView, Seq<char>>(
                ProjectView {
                    format: "MSProject.MPP14"@,
                    resources: Seq::empty(),
                    tasks: tables.tasks(),
                },
            )
        },
{
    lemma_var_meta_roundtrip(streams.var_meta->Ok_0, var_records);
    lemma_fixed_meta_roundtrip(
        streams.fixed_meta->Ok_0,
        TASK_FIXEDMETA_ITEM_SIZE as int,
        fixed_records,
    );
    lemma_fixed_items_roundtrip(fixed_records, streams.fixed_data->Ok_0, starts, blocks);
}

/// Which project storages tell a format: one at `/   114` the newest, else one at `/   112`, else one
/// at `/   19`; and what the formats are called.
pub proof fn lemma_formats(bytes: Seq<u8>)
    ensures
        has_storage(bytes, "/   114"@) ==> format_of(bytes) == Format::Mpp14,
        !has_storage(bytes, "/   114"@) && has_storage(bytes, "/   112"@) ==> format_of(bytes)
            == Format::Mpp12,
        !has_storage(bytes, "/   114"@) && !has_storage(bytes, "/   112"@) && has_storage(
            bytes,
            "/   19"@,
        ) ==> format_of(bytes) == Format::Mpp9,
        !has_storage(bytes, "/   114"@) && !has_storage(bytes, "/   112"@) && !has_storage(
            bytes,
            "/   19"@,
        ) ==> format_of(bytes) == Format::Unknown,
        Format::Mpp14.text() == "MSProject.MPP14"@,
        Format::Mpp12.text() == "MSProject.MPP12"@,
        Format::Mpp9.text() == "MSProject.MPP9"@,
        Format::Unknown.text() == "unknown"@,
{
}

/// What a file is told that is no container, and one of another format.
pub proof fn lemma_refusals(bytes: Seq<u8>, format: Format)
    ensures
        invalid_text(bytes) == "not a valid OLE/MPP container: "@ + open_failure(bytes),
        format == Format::Mpp12 ==> unsupported_text(format)
            == "this MVP only reads MPP14 (Project 2010+); detected: "@ + "MSProject.MPP12"@,
        format == Format::Mpp9 ==> unsupported_text(format)
            == "this MVP only reads MPP14 (Project 2010+); detected: "@ + "MSProject.MPP9"@,
        format == Format::Unknown ==> unsupported_text(format)
            == "this MVP only reads MPP14 (Project 2010+); detected: "@ + "unknown"@,
{
}

/// Where each stream is read.
pub proof fn lemma_stream_places(streams: TaskStreamsView, bytes: Seq<u8>)
    requires
        are_readings(streams, bytes),
    ensures
        is_reading(streams.var_meta, bytes, "/   114/TBkndTask/VarMeta"@),
        is_reading(streams.var2_data, bytes, "/   114/TBkndTask/Var2Data"@),
        is_reading(streams.fixed_meta, bytes, "/   114/TBkndTask/FixedMeta"@),
        is_reading(streams.fixed_data, bytes, "/   114/TBkndTask/FixedData"@),
        is_reading(streams.fixed2_meta, bytes, "/   114/TBkndTask/Fixed2Meta"@),
        is_reading(streams.fixed2_data, bytes, "/   114/TBkndTask/Fixed2Data"@),
{
}

/// What is said of the streams, of a reading and of a result is what they hold.
pub proof fn lemma_stream_views(
    streams: TaskStreams,
    reading: Result<Vec<u8>, String>,
    result: Result<Project, String>,
)
    ensures
        streams@.var_meta == reading_view(streams.var_meta),
        streams@.var2_data == reading_view(streams.var2_data),
        streams@.fixed_meta == reading_view(streams.fixed_meta),
        streams@.fixed_data == reading_view(streams.fixed_data),
        streams@.fixed2_meta == reading_view(streams.fixed2_meta),
        streams@.fixed2_data == reading_view(streams.fixed2_data),
        reading matches Ok(content) ==> reading_view(reading) == Ok::<Seq<u8>, Seq<char>>(content@),
        reading matches Err(message) ==> reading_view(reading) == Err::<Seq<u8>, Seq<char>>(message@),
        result matches Ok(project) ==> result_view(result) == Ok::<ProjectView, Seq<char>>(project@),
        result matches Err(message) ==> result_view(result) == Err::<ProjectView, Seq<char>>(message@),
{
}

/// A project comes out if and only if four streams were read and two of them are well-formed; it has
/// the name of its format, no resources, and the tasks of the streams. Otherwise the first of six
/// errors comes out, in this order.
pub proof fn lemma_outcome_of_streams(streams: TaskStreamsView)
    ensures
        ({
            let outcome = project_outcome(streams);
            match streams.var_meta {
                Err(message) => outcome == Err::<ProjectView, Seq<char>>(message),
                Ok(var_meta) => match var_meta_outcome(var_meta) {
                    Err(message) => outcome == Err::<ProjectView, Seq<char>>(message),
                    Ok(index) => {
                        &&& streams.var2_data matches Err(message) ==> outcome == Err::<
                            ProjectView,
                            Seq<char>,
                        >(message)
                        &&& streams.var2_data is Ok ==> (streams.fixed_meta matches Err(message)
                            ==> outcome == Err::<ProjectView, Seq<char>>(message))
                        &&& streams.var2_data is Ok ==> (streams.fixed_meta matches Ok(fixed_meta) ==> {
                            &&& fixed_meta_outcome(fixed_meta, 47) matches Err(message) ==> outcome
                                == Err::<ProjectView, Seq<char>>(message)
                            &&& fixed_meta_outcome(fixed_meta, 47) is Ok ==> {
                                &&& streams.fixed_data matches Err(message) ==> outcome == Err::<
                                    ProjectView,
                                    Seq<char>,
                                >(message)
                                &&& streams.fixed_data is Ok ==> (outcome matches Ok(project) && {
                                    &&& project.format == "MSProject.MPP14"@
                                    &&& project.resources.len() == 0
                                    &&& tables_outcome(streams) matches Ok(tables) && project.tasks
                                        == tables.tasks()
                                })
                            }
                        })
                    },
                },
            }
        }),
{
}

/// What the tables hold, where there are any: the index of `VarMeta`, the values of `Var2Data` by its
/// offsets, and the items of `FixedData` by the records of 47 bytes of `FixedMeta`. The second blocks
/// are the items of `Fixed2Data` by those of `Fixed2Meta`, for as many records as there are blocks.
/// There are none if one of their two streams was not read.
pub proof fn lemma_tables_of_streams(streams: TaskStreamsView, tables: TaskTables)
    requires
        tables_outcome(streams) == Ok::<TaskTables, Seq<char>>(tables),
    ensures
        streams.var_meta matches Ok(data) && var_meta_outcome(data) == Ok::<
            VarIndex,
            Seq<char>,
        >(tables.index),
        streams.var2_data matches Ok(data) && tables.values == var_values(tables.index.offsets, data),
        streams.fixed_meta matches Ok(meta) && fixed_meta_outcome(meta, 47) matches Ok(records)
            && streams.fixed_data matches Ok(data) && tables.blocks == fixed_items(records, data),
        streams.fixed2_meta is Err ==> tables.second_blocks is None,
        streams.fixed2_data is Err ==> tables.second_blocks is None,
        streams.fixed2_meta matches Ok(meta) ==> streams.fixed2_data matches Ok(data)
            ==> tables.second_blocks == second_blocks_of(
            Ok(meta),
            Ok(data),
            tables.blocks.len() as int,
        ),
{
}

/// How the second blocks are cut: by the records of `Fixed2Meta`, whose size lies from 92 to 96. It is
/// the least of these sizes by which the stream has just one record for each block. If there is none,
/// it is one by which the stream is a whole number of records, and the announced number of them
/// takes no more than the stream has: the greatest, or, where none are announced, the least. If there
/// is none either, it is 92. There are no second blocks if the stream does not start as it should.
pub proof fn lemma_second_record_size(meta: Seq<u8>, data: Seq<u8>, count: int) -> (size: int)
    requires
        0 <= count,
    ensures
        92 <= size <= 96,
        fixed_meta_outcome(meta, size) matches Ok(records) ==> second_blocks_of(
            Ok(meta),
            Ok(data),
            count,
        ) == Some(fixed_items(records, data)),
        fixed_meta_outcome(meta, size) is Err ==> second_blocks_of(Ok(meta), Ok(data), count) is None,
        meta.len() >= 16 ==> {
            let bytes = meta.len() - 16;
            let announced = meta[8] + 256 * (meta[9] + 256 * (meta[10] + 256 * meta[11]));
            let some_exact = bytes == 92 * count || bytes == 93 * count || bytes == 94 * count || bytes
                == 95 * count || bytes == 96 * count;
            &&& some_exact ==> bytes == size * count && forall|s: int|
                92 <= s < size ==> bytes != #[trigger] (s * count)
            &&& !some_exact && announced * 96 <= isize::MAX ==> {
                let some_fits = exists|s: int|
                    92 <= s <= 96 && #[trigger] is_whole_number(bytes, s) && announced * s <= bytes;
                &&& some_fits ==> is_whole_number(bytes, size) && announced * size <= bytes
                &&& some_fits && announced > 0 ==> forall|s: int|
                    size < s <= 96 && #[trigger] is_whole_number(bytes, s) ==> announced * s > bytes
                &&& some_fits && announced == 0 ==> forall|s: int|
                    92 <= s < size ==> !#[trigger] is_whole_number(bytes, s)
                &&& !some_fits ==> size == 92
            }
        },
{
    let candidates = fixed2_candidates();
    let bytes: int = if meta.len() < 16 {
        0
    } else {
        meta.len() - 16
    };
    let announced: int = if meta.len() < 12 {
        0
    } else {
        meta[8] + 256 * (meta[9] + 256 * (meta[10] + 256 * meta[11]))
    };
    let excess = Seq::new(5, |j: int| second_excess(announced, candidates[j] as int, bytes).0);
    let wraps = Seq::new(5, |j: int| second_excess(announced, candidates[j] as int, bytes).1);
    assert forall|j: int| 0 <= j < candidates.len() implies {
        &&& announced * #[trigger] candidates[j] <= isize::MAX ==> excess[j] == announced * candidates[j]
            - bytes
        &&& announced * candidates[j] > isize::MAX ==> {
            &&& isize::MIN <= excess[j] <= isize::MAX
            &&& announced * candidates[j] - bytes == excess[j] + wraps[j] * (usize::MAX + 1)
        }
    } by {
        lemma_second_excess(announced, candidates[j] as int, bytes);
    }
    let i = lemma_candidate_choice(meta, candidates, count, bytes, announced, excess, wraps);
    let size = candidates[i] as int;
    assert(candidates[0] == 92 && candidates[1] == 93 && candidates[2] == 94 && candidates[3] == 95
        && candidates[4] == 96);
    assert(forall|j: int| 0 <= j < 5 ==> #[trigger] candidates[j] == 92 + j);
    if meta.len() >= 16 {
        let some_exact = bytes == 92 * count || bytes == 93 * count || bytes == 94 * count || bytes == 95
            * count || bytes == 96 * count;
        if some_exact {
            assert(exists|j: int|
                0 <= j < candidates.len() && is_filled(bytes, #[trigger] candidates[j] as int, count))
                by {
                assert(is_filled(bytes, candidates[0] as int, count) || is_filled(
                    bytes,
                    candidates[1] as int,
                    count,
                ) || is_filled(bytes, candidates[2] as int, count) || is_filled(
                    bytes,
                    candidates[3] as int,
                    count,
                ) || is_filled(bytes, candidates[4] as int, count));
            }
            assert forall|s: int| 92 <= s < size implies bytes != #[trigger] (s * count) by {
                assert(!is_filled(bytes, candidates[s - 92] as int, count));
            }
        } else {
            assert forall|j: int| 0 <= j < candidates.len() implies !is_filled(
                bytes,
                #[trigger] candidates[j] as int,
                count,
            ) by {
                assert(candidates[j] == 92 + j);
            }
            if announced * 96 <= isize::MAX {
                lemma_second_fits(candidates, bytes, announced, excess, i);
            }
        }
    }
    size
}

/// Whether bytes are a whole number of records of a size.
pub open spec fn is_whole_number(bytes: int, size: int) -> bool {
    bytes % size == 0
}

/// How many bytes more a number of records of a size takes than there are, as the machine counts them,
/// and how often it wraps.
spec fn second_excess(announced: int, size: int, bytes: int) -> (int, int) {
    let modulus = usize::MAX + 1;
    let exact = announced * size - bytes;
    if announced * size <= isize::MAX {
        (exact, 0)
    } else if exact % modulus <= isize::MAX {
        (exact % modulus, exact / modulus)
    } else {
        (exact % modulus - modulus, exact / modulus + 1)
    }
}

proof fn lemma_second_excess(announced: int, size: int, bytes: int)
    ensures
        ({
            let (excess, wraps) = second_excess(announced, size, bytes);
            &&& announced * size <= isize::MAX ==> excess == announced * size - bytes
            &&& announced * size > isize::MAX ==> {
                &&& isize::MIN <= excess <= isize::MAX
                &&& announced * size - bytes == excess + wraps * (usize::MAX + 1)
            }
        }),
{
    let modulus = usize::MAX + 1;
    let exact = announced * size - bytes;
    assert(modulus == 2 * (isize::MAX + 1));
    assert(isize::MIN == -(isize::MAX + 1));
    vstd::arithmetic::div_mod::lemma_fundamental_div_mod(exact, modulus);
    vstd::arithmetic::div_mod::lemma_mod_bound(exact, modulus);
    let quotient = exact / modulus;
    assert(modulus * quotient == quotient * modulus) by (nonlinear_arith);
    assert((quotient + 1) * modulus == quotient * modulus + modulus) by (nonlinear_arith);
}

proof fn lemma_second_fits(
    candidates: Seq<usize>,
    bytes: int,
    announced: int,
    excess: Seq<int>,
    i: int,
)
    requires
        candidates.len() == 5,
        forall|j: int| 0 <= j < 5 ==> #[trigger] candidates[j] == 92 + j,
        excess.len() == 5,
        0 <= bytes,
        0 <= announced,
        announced * 96 <= isize::MAX,
        forall|j: int|
            0 <= j < 5 ==> (announced * #[trigger] candidates[j] <= isize::MAX ==> excess[j] == announced
                * candidates[j] - bytes),
        0 <= i < 5,
        (exists|j: int|
            0 <= j < candidates.len() && is_not_exceeded(
                bytes,
                #[trigger] candidates[j] as int,
                announced,
                excess[j],
            )) ==> is_not_exceeded(bytes, candidates[i] as int, announced, excess[i]) && forall|j: int|
            0 <= j < candidates.len() && is_not_exceeded(
                bytes,
                #[trigger] candidates[j] as int,
                announced,
                excess[j],
            ) ==> excess[j] < excess[i] || (excess[j] == excess[i] && i <= j),
        (forall|j: int|
            0 <= j < candidates.len() ==> !is_not_exceeded(
                bytes,
                #[trigger] candidates[j] as int,
                announced,
                excess[j],
            )) ==> i == 0,
    ensures
        ({
            let size = candidates[i] as int;
            let some_fits = exists|s: int|
                92 <= s <= 96 && #[trigger] is_whole_number(bytes, s) && announced * s <= bytes;
            &&& some_fits ==> is_whole_number(bytes, size) && announced * size <= bytes
            &&& some_fits && announced > 0 ==> forall|s: int|
                size < s <= 96 && #[trigger] is_whole_number(bytes, s) ==> announced * s > bytes
            &&& some_fits && announced == 0 ==> forall|s: int|
                92 <= s < size ==> !#[trigger] is_whole_number(bytes, s)
            &&& !some_fits ==> size == 92
        }),
{
    let size = candidates[i] as int;
    assert forall|j: int| 0 <= j < 5 implies {
        &&& excess[j] == announced * (92 + j) - bytes
        &&& is_not_exceeded(bytes, #[trigger] candidates[j] as int, announced, excess[j])
            == (is_whole_number(bytes, 92 + j) && announced * (92 + j) <= bytes)
    } by {
        assert(candidates[j] == 92 + j);
        assert(announced * (92 + j) <= announced * 96) by (nonlinear_arith)
            requires
                0 <= announced,
                j <= 4,
        ;
        assert(announced * candidates[j] == announced * (92 + j));
    }
    if exists|s: int| 92 <= s <= 96 && #[trigger] is_whole_number(bytes, s) && announced * s <= bytes {
        let s = choose|s: int|
            92 <= s <= 96 && #[trigger] is_whole_number(bytes, s) && announced * s <= bytes;
        assert(is_not_exceeded(bytes, candidates[s - 92] as int, announced, excess[s - 92]));
        assert(is_not_exceeded(bytes, candidates[i] as int, announced, excess[i]));
        assert forall|s: int|
            size < s <= 96 && #[trigger] is_whole_number(bytes, s) && announced
                > 0 implies announced * s > bytes by {
            if announced * s <= bytes {
                assert(is_not_exceeded(bytes, candidates[s - 92] as int, announced, excess[s - 92]));
                assert(announced * size < announced * s) by (nonlinear_arith)
                    requires
                        size < s,
                        announced > 0,
                ;
            }
        }
        assert forall|s: int| 92 <= s < size && announced == 0 implies !#[trigger] is_whole_number(
            bytes,
            s,
        ) by {
            if is_whole_number(bytes, s) {
                assert(announced * s == 0) by (nonlinear_arith)
                    requires
                        announced == 0,
                ;
                assert(announced * size == 0) by (nonlinear_arith)
                    requires
                        announced == 0,
                ;
                assert(is_not_exceeded(bytes, candidates[s - 92] as int, announced, excess[s - 92]));
            }
        }
    } else {
        assert forall|j: int| 0 <= j < candidates.len() implies !is_not_exceeded(
            bytes,
            #[trigger] candidates[j] as int,
            announced,
            excess[j],
        ) by {
            assert(!(is_whole_number(bytes, 92 + j) && announced * (92 + j) <= bytes));
        }
    }
}

} // verus!
