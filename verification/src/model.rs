//! The data model handed back to the caller.
use vstd::prelude::*;

verus! {

/// A project.
pub struct Project {
    pub format: String,
    pub resources: Vec<Resource>,
    pub tasks: Vec<Task>,
}

/// A resource of a project.
pub struct Resource {
    pub unique_id: i32,
    pub id: i32,
    pub name: String,
}

/// A task of a project. Dates are in ISO 8601 form.
pub struct Task {
    pub unique_id: i32,
    pub id: i32,
    pub name: String,
    /// Depth in the work breakdown structure, from 1.
    pub outline_level: u16,
    pub parent_unique_id: Option<i32>,
    pub start: Option<String>,
    pub finish: Option<String>,
    pub scheduled_start: Option<String>,
    pub scheduled_finish: Option<String>,
    pub actual_start: Option<String>,
    pub actual_finish: Option<String>,
    pub early_start: Option<String>,
    pub early_finish: Option<String>,
    pub late_start: Option<String>,
    pub late_finish: Option<String>,
    pub deadline: Option<String>,
    pub constraint_date: Option<String>,
    pub created: Option<String>,
    pub baseline_start: Option<String>,
    pub baseline_finish: Option<String>,
    /// The bits of a double-precision number.
    pub work_hours: Option<u64>,
    /// The bits of a double-precision number.
    pub cost: Option<u64>,
    /// The bits of a double-precision number.
    pub fixed_cost: Option<u64>,
    pub resource_names: Vec<String>,
    pub percent_complete: u16,
}

/// What a `Project` says.
#[verifier::ext_equal]
pub struct ProjectView {
    pub format: Seq<char>,
    pub resources: Seq<ResourceView>,
    pub tasks: Seq<TaskView>,
}

/// What a `Resource` says.
pub struct ResourceView {
    pub unique_id: i32,
    pub id: i32,
    pub name: Seq<char>,
}

/// What a `Task` says.
#[verifier::ext_equal]
pub struct TaskView {
    pub unique_id: i32,
    pub id: i32,
    pub name: Seq<char>,
    pub outline_level: u16,
    pub parent_unique_id: Option<i32>,
    pub start: Option<Seq<char>>,
    pub finish: Option<Seq<char>>,
    pub scheduled_start: Option<Seq<char>>,
    pub scheduled_finish: Option<Seq<char>>,
    pub actual_start: Option<Seq<char>>,
    pub actual_finish: Option<Seq<char>>,
    pub early_start: Option<Seq<char>>,
    pub early_finish: Option<Seq<char>>,
    pub late_start: Option<Seq<char>>,
    pub late_finish: Option<Seq<char>>,
    pub deadline: Option<Seq<char>>,
    pub constraint_date: Option<Seq<char>>,
    pub created: Option<Seq<char>>,
    pub baseline_start: Option<Seq<char>>,
    pub baseline_finish: Option<Seq<char>>,
    pub work_hours: Option<u64>,
    pub cost: Option<u64>,
    pub fixed_cost: Option<u64>,
    pub resource_names: Seq<Seq<char>>,
    pub percent_complete: u16,
}

/// The characters of an optional text.
pub open spec fn text_view(text: Option<String>) -> Option<Seq<char>> {
    match text {
        Some(t) => Some(t@),
        None => None,
    }
}

impl View for Resource {
    type V = ResourceView;

    open spec fn view(&self) -> ResourceView {
        ResourceView { unique_id: self.unique_id, id: self.id, name: self.name@ }
    }
}

impl View for Task {
    type V = TaskView;

    open spec fn view(&self) -> TaskView {
        TaskView {
            unique_id: self.unique_id,
            id: self.id,
            name: self.name@,
            outline_level: self.outline_level,
            parent_unique_id: self.parent_unique_id,
            start: text_view(self.start),
            finish: text_view(self.finish),
            scheduled_start: text_view(self.scheduled_start),
            scheduled_finish: text_view(self.scheduled_finish),
            actual_start: text_view(self.actual_start),
            actual_finish: text_view(self.actual_finish),
            early_start: text_view(self.early_start),
            early_finish: text_view(self.early_finish),
            late_start: text_view(self.late_start),
            late_finish: text_view(self.late_finish),
            deadline: text_view(self.deadline),
            constraint_date: text_view(self.constraint_date),
            created: text_view(self.created),
            baseline_start: text_view(self.baseline_start),
            baseline_finish: text_view(self.baseline_finish),
            work_hours: self.work_hours,
            cost: self.cost,
            fixed_cost: self.fixed_cost,
            resource_names: self.resource_names@.map_values(|name: String| name@),
            percent_complete: self.percent_complete,
        }
    }
}

impl View for Project {
    type V = ProjectView;

    open spec fn view(&self) -> ProjectView {
        ProjectView {
            format: self.format@,
            resources: self.resources@.map_values(|resource: Resource| resource@),
            tasks: self.tasks@.map_values(|task: Task| task@),
        }
    }
}

impl TaskView {
    /// A task with nothing filled in.
    pub open spec fn empty() -> TaskView {
        TaskView {
            unique_id: 0,
            id: 0,
            name: Seq::empty(),
            outline_level: 0,
            parent_unique_id: None,
            start: None,
            finish: None,
            scheduled_start: None,
            scheduled_finish: None,
            actual_start: None,
            actual_finish: None,
            early_start: None,
            early_finish: None,
            late_start: None,
            late_finish: None,
            deadline: None,
            constraint_date: None,
            created: None,
            baseline_start: None,
            baseline_finish: None,
            work_hours: None,
            cost: None,
            fixed_cost: None,
            resource_names: Seq::empty(),
            percent_complete: 0,
        }
    }
}

impl Default for Task {
    /// A task with nothing filled in.
    fn default() -> (task: Self)
        ensures
            task@ == TaskView::empty(),
    {
        Task {
            unique_id: 0,
            id: 0,
            name: String::new(),
            outline_level: 0,
            parent_unique_id: None,
            start: None,
            finish: None,
            scheduled_start: None,
            scheduled_finish: None,
            actual_start: None,
            actual_finish: None,
            early_start: None,
            early_finish: None,
            late_start: None,
            late_finish: None,
            deadline: None,
            constraint_date: None,
            created: None,
            baseline_start: None,
            baseline_finish: None,
            work_hours: None,
            cost: None,
            fixed_cost: None,
            resource_names: Vec::new(),
            percent_complete: 0,
        }
    }
}

impl Default for Resource {
    /// A resource with nothing filled in.
    fn default() -> (resource: Self)
        ensures
            resource@ == (ResourceView { unique_id: 0, id: 0, name: Seq::empty() }),
    {
        Resource { unique_id: 0, id: 0, name: String::new() }
    }
}

impl Default for Project {
    /// A project with nothing in it.
    fn default() -> (project: Self)
        ensures
            project@ == (ProjectView {
                format: Seq::empty(),
                resources: Seq::empty(),
                tasks: Seq::empty(),
            }),
    {
        Project { format: String::new(), resources: Vec::new(), tasks: Vec::new() }
    }
}

/// What is said of a task is what its fields hold, each under its own name.
pub proof fn lemma_task_view(task: Task)
    ensures
        task@.name == task.name@,
        task@.unique_id == task.unique_id,
        task@.id == task.id,
        task@.outline_level == task.outline_level,
        task@.parent_unique_id == task.parent_unique_id,
        task@.work_hours == task.work_hours,
        task@.cost == task.cost,
        task@.fixed_cost == task.fixed_cost,
        task@.percent_complete == task.percent_complete,
        task.start is None ==> task@.start is None,
        task.start matches Some(text) ==> task@.start == Some(text@),
        task.finish is None ==> task@.finish is None,
        task.finish matches Some(text) ==> task@.finish == Some(text@),
        task.scheduled_start is None ==> task@.scheduled_start is None,
        task.scheduled_start matches Some(text) ==> task@.scheduled_start == Some(text@),
        task.scheduled_finish is None ==> task@.scheduled_finish is None,
        task.scheduled_finish matches Some(text) ==> task@.scheduled_finish == Some(text@),
        task.actual_start is None ==> task@.actual_start is None,
        task.actual_start matches Some(text) ==> task@.actual_start == Some(text@),
        task.actual_finish is None ==> task@.actual_finish is None,
        task.actual_finish matches Some(text) ==> task@.actual_finish == Some(text@),
        task.early_start is None ==> task@.early_start is None,
        task.early_start matches Some(text) ==> task@.early_start == Some(text@),
        task.early_finish is None ==> task@.early_finish is None,
        task.early_finish matches Some(text) ==> task@.early_finish == Some(text@),
        task.late_start is None ==> task@.late_start is None,
        task.late_start matches Some(text) ==> task@.late_start == Some(text@),
        task.late_finish is None ==> task@.late_finish is None,
        task.late_finish matches Some(text) ==> task@.late_finish == Some(text@),
        task.deadline is None ==> task@.deadline is None,
        task.deadline matches Some(text) ==> task@.deadline == Some(text@),
        task.constraint_date is None ==> task@.constraint_date is None,
        task.constraint_date matches Some(text) ==> task@.constraint_date == Some(text@),
        task.created is None ==> task@.created is None,
        task.created matches Some(text) ==> task@.created == Some(text@),
        task.baseline_start is None ==> task@.baseline_start is None,
        task.baseline_start matches Some(text) ==> task@.baseline_start == Some(text@),
        task.baseline_finish is None ==> task@.baseline_finish is None,
        task.baseline_finish matches Some(text) ==> task@.baseline_finish == Some(text@),
        task@.resource_names.len() == task.resource_names@.len(),
        forall|i: int|
            0 <= i < task.resource_names@.len() ==> #[trigger] task@.resource_names[i]
                == task.resource_names@[i]@,
{
}

/// What is said of a project is what its fields hold.
pub proof fn lemma_project_view(project: Project)
    ensures
        project@.format == project.format@,
        project@.tasks.len() == project.tasks@.len(),
        forall|i: int|
            0 <= i < project.tasks@.len() ==> #[trigger] project@.tasks[i] == project.tasks@[i]@,
        project@.resources.len() == project.resources@.len(),
        forall|i: int|
            0 <= i < project.resources@.len() ==> {
                &&& (#[trigger] project@.resources[i]).unique_id == project.resources@[i].unique_id
                &&& project@.resources[i].id == project.resources@[i].id
                &&& project@.resources[i].name == project.resources@[i].name@
            },
{
}

/// A task with nothing filled in has zeros for numbers, no name and no dates.
pub proof fn lemma_empty_task()
    ensures
        ({
            let task = TaskView::empty();
            &&& task.unique_id == 0 && task.id == 0 && task.name.len() == 0
            &&& task.outline_level == 0 && task.percent_complete == 0
            &&& task.parent_unique_id is None && task.resource_names.len() == 0
            &&& task.work_hours is None && task.cost is None && task.fixed_cost is None
            &&& task.start is None && task.finish is None
            &&& task.scheduled_start is None && task.scheduled_finish is None
            &&& task.actual_start is None && task.actual_finish is None
            &&& task.early_start is None && task.early_finish is None
            &&& task.late_start is None && task.late_finish is None
            &&& task.deadline is None && task.constraint_date is None
            &&& task.created is None && task.baseline_start is None
            &&& task.baseline_finish is None
        }),
{
}

} // verus!
